use vstd::prelude::*;
use crate::date::{
    CivilDate, MAX_YEAR, MIN_YEAR, date_from_julian_day, iso_week_sunday, iso_week_sunday_jd,
    iso_weeks_in_year, jd, julian_day, lemma_jd_bounds, max_jd, valid_date,
};
use crate::event::CalendarError;
use crate::label::{month_name, month_name_of, month_run_label, month_run_label_of, views};

verus! {

/// One day of a week grid: its date, the name of its month, and the events placed on it.
#[derive(Debug)]
pub struct DayContext {
    pub date: CivilDate,
    pub month: String,
    pub events: Vec<usize>,
}

/// The events of one week, by day of the week counted from Sunday (slot 0) to Saturday (slot 6).
#[derive(Debug)]
pub struct WeekDayMap {
    pub slots: Vec<Vec<usize>>,
}

/// A week grid exists for (year, week) when the week is an ISO week of that year and the seven
/// days from its Sunday on can be represented.
pub open spec fn week_grid_exists(year: int, week: int) -> bool {
    MIN_YEAR <= year <= MAX_YEAR && 1 <= week <= iso_weeks_in_year(year) && iso_week_sunday_jd(
        year,
        week,
    ) + 6 <= max_jd()
}

pub open spec fn month_names(days: Seq<DayContext>) -> Seq<Seq<char>> {
    days.map_values(|d: DayContext| d.month@)
}

impl WeekDayMap {
    pub open spec fn wf(&self) -> bool {
        self.slots@.len() == 7
    }

    pub fn new() -> (r: WeekDayMap)
        ensures
            r.wf(),
            forall|n: int| 0 <= n < 7 ==> (#[trigger] r.slots@[n])@.len() == 0,
    {
        let mut slots: Vec<Vec<usize>> = Vec::new();
        let mut n: usize = 0;
        while n < 7
            invariant
                n <= 7,
                slots@.len() == n,
                forall|i: int| 0 <= i < n ==> (#[trigger] slots@[i])@.len() == 0,
            decreases 7 - n,
        {
            slots.push(Vec::new());
            n = n + 1;
        }
        WeekDayMap { slots }
    }

    /// Places `event` on the day `weekday`, after the events already there.
    pub fn add(&mut self, weekday: u8, event: usize)
        requires
            old(self).wf(),
            weekday < 7,
        ensures
            final(self).wf(),
            final(self).slots@[weekday as int]@ == old(self).slots@[weekday as int]@.push(event),
            forall|n: int|
                0 <= n < 7 && n != weekday ==> (#[trigger] final(self).slots@[n])@ == old(
                    self,
                ).slots@[n]@,
    {
        let mut slot = self.slots.remove(weekday as usize);
        slot.push(event);
        self.slots.insert(weekday as usize, slot);
        assert forall|n: int| 0 <= n < 7 && n != weekday implies (#[trigger] self.slots@[n])@
            == old(self).slots@[n]@ by {
            if n < weekday {
                assert(self.slots@[n] == old(self).slots@[n]);
            } else {
                assert(self.slots@[n] == old(self).slots@[n]);
            }
        }
    }

    /// The seven days from the Sunday that closes ISO week `week` of `year`, each with the
    /// events of its day of the week.
    pub fn context(&self, year: i32, week: u8) -> (r: Result<Vec<DayContext>, CalendarError>)
        requires
            self.wf(),
        ensures
            r is Ok <==> week_grid_exists(year as int, week as int),
            r matches Err(e) ==> e == CalendarError::InvalidWeekDate,
            r matches Ok(days) ==> days@.len() == 7 && forall|n: int|
                0 <= n < 7 ==> {
                    &&& valid_date((#[trigger] days@[n]).date)
                    &&& jd(days@[n].date) == iso_week_sunday_jd(year as int, week as int) + n
                    &&& days@[n].month@ == month_name(days@[n].date.month as int)
                    &&& days@[n].events@ == self.slots@[n]@
                },
    {
        let sunday = match iso_week_sunday(year, week) {
            Some(d) => d,
            None => {
                return Err(CalendarError::InvalidWeekDate);
            },
        };
        proof {
            lemma_jd_bounds();
        }
        let sj = julian_day(sunday);
        if sj > 5373484 - 6 {
            return Err(CalendarError::InvalidWeekDate);
        }
        let mut days: Vec<DayContext> = Vec::new();
        let mut n: usize = 0;
        while n < 7
            invariant
                self.wf(),
                n <= 7,
                sj == iso_week_sunday_jd(year as int, week as int),
                sj + 6 <= max_jd(),
                max_jd() == 5373484,
                crate::date::min_jd() == -1930999,
                crate::date::min_jd() <= sj,
                days@.len() == n,
                forall|i: int|
                    0 <= i < n ==> {
                        &&& valid_date((#[trigger] days@[i]).date)
                        &&& jd(days@[i].date) == sj + i
                        &&& days@[i].month@ == month_name(days@[i].date.month as int)
                        &&& days@[i].events@ == self.slots@[i]@
                    },
            decreases 7 - n,
        {
            let date = match date_from_julian_day(sj + n as i32) {
                Some(d) => d,
                None => {
                    proof {
                        lemma_jd_bounds();
                    }
                    assert(false);
                    return Err(CalendarError::InvalidWeekDate);
                },
            };
            let events = self.slots[n].clone();
            days.push(DayContext { date, month: month_name_of(date.month), events });
            n = n + 1;
        }
        Ok(days)
    }
}

/// The month label of a run of days: "March" for days of one month, "April - May" for days
/// that run from April into May.
pub fn week_month_label(days: &Vec<DayContext>) -> (r: String)
    ensures
        r@ == month_run_label(month_names(days@)),
{
    let mut names: Vec<String> = Vec::new();
    let mut i: usize = 0;
    while i < days.len()
        invariant
            i <= days.len(),
            names@.len() == i,
            views(names@) == month_names(days@).take(i as int),
        decreases days.len() - i,
    {
        let ghost before = names@;
        let name = days[i].month.clone();
        names.push(name);
        assert(names@ == before.push(name));
        assert(views(names@) =~= month_names(days@).take(i + 1)) by {
            assert(views(before) =~= month_names(days@).take(i as int));
            assert forall|j: int| 0 <= j < i + 1 implies #[trigger] views(names@)[j] == month_names(
                days@,
            ).take(i + 1)[j] by {
                if j < i {
                    assert(names@[j] == before[j]);
                    assert(views(before)[j] == month_names(days@).take(i as int)[j]);
                }
            }
        }
        i = i + 1;
    }
    assert(month_names(days@).take(days.len() as int) =~= month_names(days@));
    month_run_label_of(names)
}

} // verus!
