use vstd::prelude::*;
use crate::date::{
    DateTime, valid_time, jd, max_jd, min_jd, instant, iso_week_of,
    weekday_from_sunday, julian_day, lemma_jd_bounds, date_from_julian_day, instant_of, iso_week, weekday,
};

verus! {

/// A schedule that repeats an event every `every_days` days, `count` times when bounded.
#[derive(Clone, Copy, Debug, PartialEq, Eq, Structural)]
pub struct Recurrence {
    pub every_days: u32,
    pub count: Option<u32>,
}

/// One event of a calendar; times are wall-clock times in the display timezone.
#[derive(Debug)]
pub struct Event {
    pub summary: String,
    pub start: DateTime,
    pub end: DateTime,
    pub recurrence: Option<Recurrence>,
}

pub struct EventView {
    pub summary: Seq<char>,
    pub start: DateTime,
    pub end: DateTime,
    pub recurrence: Option<Recurrence>,
}

impl View for Event {
    type V = EventView;

    open spec fn view(&self) -> EventView {
        EventView {
            summary: self.summary@,
            start: self.start,
            end: self.end,
            recurrence: self.recurrence,
        }
    }
}

pub open spec fn event_views(v: Seq<Event>) -> Seq<EventView> {
    v.map_values(|e: Event| e@)
}

pub open spec fn valid_event(e: EventView) -> bool {
    valid_time(e.start) && valid_time(e.end)
}

/// The start of time `t` lies in the closed window [ws, we].
pub open spec fn in_window(t: DateTime, ws: DateTime, we: DateTime) -> bool {
    instant(ws) <= instant(t) <= instant(we)
}

/// Days between the start of the schedule and its occurrence `k`.
pub open spec fn offset_days(e: EventView, k: int) -> int {
    match e.recurrence {
        Some(rule) => k * rule.every_days,
        None => 0,
    }
}

pub open spec fn within_count(e: EventView, k: int) -> bool {
    match e.recurrence {
        Some(rule) => match rule.count {
            Some(c) => k < c,
            None => true,
        },
        None => k == 0,
    }
}

/// Occurrence `k` of a recurring event belongs to the schedule, can be represented, and starts
/// inside the window.
#[verifier::opaque]
pub open spec fn admissible(e: EventView, ws: DateTime, we: DateTime, k: int) -> bool {
    &&& 0 <= k
    &&& within_count(e, k)
    &&& jd(e.start.date) + offset_days(e, k) <= max_jd()
    &&& jd(e.end.date) + offset_days(e, k) <= max_jd()
    &&& instant(ws) <= instant(e.start) + offset_days(e, k) * 86400 <= instant(we)
}

/// `o` is occurrence `k` of `e`: the same event, moved forward by whole periods.
pub open spec fn is_occurrence(e: EventView, o: EventView, k: int) -> bool {
    &&& o.summary == e.summary
    &&& o.recurrence == e.recurrence
    &&& valid_time(o.start)
    &&& valid_time(o.end)
    &&& o.start.second == e.start.second
    &&& o.end.second == e.end.second
    &&& jd(o.start.date) == jd(e.start.date) + offset_days(e, k)
    &&& jd(o.end.date) == jd(e.end.date) + offset_days(e, k)
}

/// `r` is the expansion of `e` within [ws, we]: an event without a schedule stays as it is when
/// it starts inside the window; a recurring one yields, in order, exactly its occurrences that
/// start inside the window.
pub open spec fn expands_to(e: EventView, ws: DateTime, we: DateTime, r: Seq<EventView>) -> bool {
    match e.recurrence {
        None => if in_window(e.start, ws, we) {
            r == seq![e]
        } else {
            r.len() == 0
        },
        Some(rule) => exists|k0: int|
            #![trigger is_occurrence(e, r[0], k0)]
            k0 >= 0 && (forall|k: int| admissible(e, ws, we, k) <==> k0 <= k < k0 + r.len()) && (
            forall|i: int| 0 <= i < r.len() ==> is_occurrence(e, #[trigger] r[i], k0 + i)),
    }
}

pub open spec fn malformed(e: EventView) -> bool {
    match e.recurrence {
        Some(rule) => rule.every_days == 0,
        None => false,
    }
}

/// Errors of the calendar engine.
#[derive(Clone, Copy, Debug, PartialEq, Eq, Structural)]
pub enum CalendarError {
    /// A recurrence rule that cannot be expanded.
    MalformedRecurrence,
    /// A (year, week) pair that names no ISO week, or a week past the last representable date.
    InvalidWeekDate,
}

proof fn lemma_mul_mono(a: int, b: int, p: int)
    requires
        0 <= a <= b,
        0 <= p,
    ensures
        a * p <= b * p,
{
    assert(a * p <= b * p) by (nonlinear_arith)
        requires
            0 <= a <= b,
            0 <= p,
    ;
}

proof fn lemma_mul_succ(a: int, p: int)
    ensures
        (a + 1) * p == a * p + p,
{
    assert((a + 1) * p == a * p + p) by (nonlinear_arith);
}

/// Occurrence `k`, lying `off` days after the first, admits the conditions below.
pub proof fn lemma_admissible_at(e: EventView, ws: DateTime, we: DateTime, k: int, off: int)
    requires
        e.recurrence is Some,
        off == k * e.recurrence->0.every_days,
    ensures
        admissible(e, ws, we, k) <==> (0 <= k && within_count(e, k) && jd(e.start.date) + off
            <= max_jd() && jd(e.end.date) + off <= max_jd() && instant(ws) <= instant(e.start)
            + off * 86400 <= instant(we)),
{
    reveal(admissible);
}

/// Once an occurrence falls past the count, the last date or the window, all later ones do.
proof fn lemma_no_later(e: EventView, ws: DateTime, we: DateTime, k: int, off: int)
    requires
        e.recurrence is Some,
        e.recurrence->0.every_days >= 1,
        0 <= k,
        off == k * e.recurrence->0.every_days,
        !within_count(e, k) || jd(e.start.date) + off > max_jd() || jd(e.end.date) + off
            > max_jd() || instant(e.start) + off * 86400 > instant(we),
    ensures
        forall|j: int| j >= k ==> !admissible(e, ws, we, j),
{
    let p = e.recurrence->0.every_days as int;
    assert forall|j: int| j >= k implies !admissible(e, ws, we, j) by {
        lemma_mul_mono(k, j, p);
        lemma_admissible_at(e, ws, we, j, j * p);
    }
}

/// While an occurrence starts before the window, all earlier ones do too.
proof fn lemma_no_earlier(e: EventView, ws: DateTime, we: DateTime, k: int, off: int)
    requires
        e.recurrence is Some,
        0 <= k,
        off == k * e.recurrence->0.every_days,
        instant(e.start) + off * 86400 < instant(ws),
    ensures
        forall|j: int| j <= k ==> !admissible(e, ws, we, j),
{
    let p = e.recurrence->0.every_days as int;
    assert forall|j: int| j <= k implies !admissible(e, ws, we, j) by {
        if 0 <= j {
            lemma_mul_mono(j, k, p);
        }
        lemma_admissible_at(e, ws, we, j, j * p);
    }
}

impl Event {
    pub fn new(summary: String, start: DateTime, end: DateTime, recurrence: Option<Recurrence>) -> (r:
        Event)
        ensures
            r@ == (EventView { summary: summary@, start, end, recurrence }),
    {
        Event { summary, start, end, recurrence }
    }

    pub fn summary(&self) -> (r: &String)
        ensures
            r@ == self.summary@,
    {
        &self.summary
    }

    pub fn start(&self) -> (r: DateTime)
        ensures
            r == self.start,
    {
        self.start
    }

    pub fn end(&self) -> (r: DateTime)
        ensures
            r == self.end,
    {
        self.end
    }

    /// Calendar year of the start.
    pub fn year(&self) -> (r: i32)
        ensures
            r == self.start.date.year,
    {
        self.start.date.year
    }

    /// ISO-8601 week number of the start.
    pub fn week(&self) -> (r: u8)
        requires
            valid_event(self@),
        ensures
            r == iso_week_of(self.start.date),
    {
        iso_week(self.start.date)
    }

    /// Day of the week of the start, counted from Sunday.
    pub fn weekday(&self) -> (r: u8)
        requires
            valid_event(self@),
        ensures
            r == weekday_from_sunday(self.start.date),
    {
        weekday(self.start.date)
    }

    pub fn duplicate(&self) -> (r: Event)
        ensures
            r@ == self@,
    {
        Event {
            summary: self.summary.clone(),
            start: self.start,
            end: self.end,
            recurrence: self.recurrence,
        }
    }
}

/// The occurrences of `e` that start within [ws, we], in order.
#[verifier::rlimit(30)]
pub fn expand(e: &Event, ws: DateTime, we: DateTime) -> (r: Result<Vec<Event>, CalendarError>)
    requires
        valid_event(e@),
        valid_time(ws),
        valid_time(we),
    ensures
        r is Err <==> malformed(e@),
        r matches Err(err) ==> err == CalendarError::MalformedRecurrence,
        r matches Ok(v) ==> expands_to(e@, ws, we, event_views(v@)),
{
    let ws_i = instant_of(ws);
    let we_i = instant_of(we);
    let s_i = instant_of(e.start);
    match e.recurrence {
        None => {
            let mut out: Vec<Event> = Vec::new();
            if ws_i <= s_i && s_i <= we_i {
                out.push(e.duplicate());
                assert(event_views(out@) =~= seq![e@]);
            } else {
                assert(event_views(out@) =~= Seq::<EventView>::empty());
            }
            Ok(out)
        },
        Some(rule) => {
            if rule.every_days == 0 {
                return Err(CalendarError::MalformedRecurrence);
            }
            let p: i64 = rule.every_days as i64;
            let sj: i64 = julian_day(e.start.date) as i64;
            let ej: i64 = julian_day(e.end.date) as i64;
            let ghost ev = e@;
            let mut out: Vec<Event> = Vec::new();
            let mut k: i64 = 0;
            let mut off: i64 = 0;
            let ghost mut k0: int = 0;
            proof {
                lemma_jd_bounds();
            }
            loop
                invariant
                    ev == e@,
                    valid_event(ev),
                    ev.recurrence == Some(rule),
                    p == rule.every_days,
                    p >= 1,
                    sj == jd(e.start.date),
                    ej == jd(e.end.date),
                    ws_i == instant(ws),
                    we_i == instant(we),
                    s_i == instant(e.start),
                    min_jd() == -1930999,
                    max_jd() == 5373484,
                    0 <= k0 <= k,
                    off == k * p,
                    0 <= k <= off,
                    p <= 4294967295,
                    min_jd() <= sj <= max_jd(),
                    min_jd() <= ej <= max_jd(),
                    min_jd() * 86400 <= s_i <= max_jd() * 86400 + 86400,
                    sj + off <= max_jd() + p,
                    out.len() == k - k0,
                    forall|j: int| 0 <= j < k0 ==> !admissible(ev, ws, we, j),
                    forall|j: int| k0 <= j < k ==> admissible(ev, ws, we, j),
                    forall|i: int|
                        0 <= i < out.len() ==> is_occurrence(ev, #[trigger] out@[i]@, k0 + i),
                decreases max_jd() + p - (sj + off),
            {
                let within = match rule.count {
                    Some(c) => k < c as i64,
                    None => true,
                };
                assert(within == within_count(ev, k as int));
                if !within || sj + off > 5373484 || ej + off > 5373484 || s_i + off * 86400 > we_i {
                    proof {
                        lemma_no_later(ev, ws, we, k as int, off as int);
                        assert forall|j: int| admissible(ev, ws, we, j) <==> k0 <= j < k0
                            + out.len() by {
                            if j < 0 {
                                lemma_admissible_at(ev, ws, we, j, j * p);
                            }
                        }
                        assert forall|i: int| 0 <= i < out.len() implies is_occurrence(
                            e@,
                            #[trigger] event_views(out@)[i],
                            k0 + i,
                        ) by {
                            assert(event_views(out@)[i] == out@[i]@);
                        }
                        if out.len() > 0 {
                            assert(is_occurrence(e@, event_views(out@)[0], k0));
                        }
                    }
                    return Ok(out);
                }
                if s_i + off * 86400 >= ws_i {
                    proof {
                        lemma_admissible_at(ev, ws, we, k as int, off as int);
                    }
                    let start_date = date_from_julian_day((sj + off) as i32);
                    let end_date = date_from_julian_day((ej + off) as i32);
                    match (start_date, end_date) {
                        (Some(sd), Some(ed)) => {
                            let o = Event {
                                summary: e.summary.clone(),
                                start: DateTime { date: sd, second: e.start.second },
                                end: DateTime { date: ed, second: e.end.second },
                                recurrence: e.recurrence,
                            };
                            assert(is_occurrence(ev, o@, k as int));
                            out.push(o);
                        },
                        _ => {
                            assert(false);
                        },
                    }
                } else {
                    proof {
                        lemma_no_earlier(ev, ws, we, k as int, off as int);
                        if k0 < k {
                            assert(admissible(ev, ws, we, k0));
                        }
                        k0 = k + 1;
                    }
                }
                proof {
                    lemma_mul_succ(k as int, p as int);
                }
                k = k + 1;
                off = off + p;
            }
        },
    }
}

} // verus!
