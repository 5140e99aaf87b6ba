use vstd::prelude::*;
use crate::date::{DateTime, instant, not_after};
use crate::event::{
    CalendarError, Event, EventView, event_views, expand, expands_to, malformed, valid_event,
};

verus! {

/// The events of one calendar source, in source order.
#[derive(Debug)]
pub struct Calendar {
    pub events: Vec<Event>,
}

pub open spec fn all_valid(s: Seq<EventView>) -> bool {
    forall|i: int| 0 <= i < s.len() ==> valid_event(#[trigger] s[i])
}

/// `out` is the concatenation, in order, of the expansions of the events of `src`.
pub open spec fn expands_all(src: Seq<EventView>, ws: DateTime, we: DateTime, out: Seq<EventView>) -> bool
    decreases src.len(),
{
    if src.len() == 0 {
        out.len() == 0
    } else {
        exists|n: int|
            0 <= n <= out.len() && #[trigger] expands_to(
                src.last(),
                ws,
                we,
                out.subrange(out.len() - n, out.len() as int),
            ) && expands_all(src.drop_last(), ws, we, out.subrange(0, out.len() - n))
    }
}

/// `t` is the earliest start among `s`.
pub open spec fn is_earliest_start(s: Seq<EventView>, t: DateTime) -> bool {
    (exists|i: int| 0 <= i < s.len() && s[i].start == t) && forall|i: int|
        0 <= i < s.len() ==> instant(t) <= instant(#[trigger] s[i].start)
}

/// `t` is the latest end among `s`.
pub open spec fn is_latest_end(s: Seq<EventView>, t: DateTime) -> bool {
    (exists|i: int| 0 <= i < s.len() && s[i].end == t) && forall|i: int|
        0 <= i < s.len() ==> instant(#[trigger] s[i].end) <= instant(t)
}

impl Calendar {
    pub open spec fn wf(&self) -> bool {
        all_valid(event_views(self.events@))
    }

    pub fn new(events: Vec<Event>) -> (r: Calendar)
        ensures
            r.events@ == events@,
    {
        Calendar { events }
    }

    pub fn events(&self) -> (r: &Vec<Event>)
        ensures
            r@ == self.events@,
    {
        &self.events
    }

    /// The earliest start of the calendar's events, if it has any.
    pub fn start(&self) -> (r: Option<DateTime>)
        requires
            self.wf(),
        ensures
            r is None <==> self.events@.len() == 0,
            r matches Some(t) ==> is_earliest_start(event_views(self.events@), t),
    {
        let ghost s = event_views(self.events@);
        if self.events.len() == 0 {
            return None;
        }
        assert(valid_event(s[0]));
        let mut best = self.events[0].start;
        let mut i: usize = 1;
        while i < self.events.len()
            invariant
                s == event_views(self.events@),
                self.wf(),
                1 <= i <= self.events.len(),
                exists|j: int| 0 <= j < i && s[j].start == best,
                forall|j: int| 0 <= j < i ==> instant(best) <= instant(#[trigger] s[j].start),
                crate::date::valid_time(best),
            decreases self.events.len() - i,
        {
            assert(valid_event(s[i as int]));
            let t = self.events[i].start;
            if !not_after(best, t) {
                best = t;
            }
            i = i + 1;
        }
        Some(best)
    }

    /// The latest end of the calendar's events, if it has any.
    pub fn end(&self) -> (r: Option<DateTime>)
        requires
            self.wf(),
        ensures
            r is None <==> self.events@.len() == 0,
            r matches Some(t) ==> is_latest_end(event_views(self.events@), t),
    {
        let ghost s = event_views(self.events@);
        if self.events.len() == 0 {
            return None;
        }
        assert(valid_event(s[0]));
        let mut best = self.events[0].end;
        let mut i: usize = 1;
        while i < self.events.len()
            invariant
                s == event_views(self.events@),
                self.wf(),
                1 <= i <= self.events.len(),
                exists|j: int| 0 <= j < i && s[j].end == best,
                forall|j: int| 0 <= j < i ==> instant(#[trigger] s[j].end) <= instant(best),
                crate::date::valid_time(best),
            decreases self.events.len() - i,
        {
            assert(valid_event(s[i as int]));
            let t = self.events[i].end;
            if !not_after(t, best) {
                best = t;
            }
            i = i + 1;
        }
        Some(best)
    }

    /// Replaces each event by its occurrences within [ws, we]; on a malformed rule the calendar
    /// is left as it was.
    pub fn expand_recurrences(&mut self, ws: DateTime, we: DateTime) -> (r: Result<
        (),
        CalendarError,
    >)
        requires
            old(self).wf(),
            crate::date::valid_time(ws),
            crate::date::valid_time(we),
        ensures
            r is Err <==> exists|i: int|
                0 <= i < old(self).events@.len() && malformed(#[trigger] old(self).events@[i]@),
            r matches Err(e) ==> e == CalendarError::MalformedRecurrence && final(self).events@
                == old(self).events@,
            r is Ok ==> expands_all(
                event_views(old(self).events@),
                ws,
                we,
                event_views(final(self).events@),
            ) && final(self).wf(),
    {
        let ghost src = event_views(self.events@);
        let mut out: Vec<Event> = Vec::new();
        let mut i: usize = 0;
        while i < self.events.len()
            invariant
                src == event_views(self.events@),
                self.wf(),
                i <= self.events.len(),
                forall|j: int| 0 <= j < i ==> !malformed(#[trigger] self.events@[j]@),
                expands_all(src.take(i as int), ws, we, event_views(out@)),
                all_valid(event_views(out@)),
                crate::date::valid_time(ws),
                crate::date::valid_time(we),
            decreases self.events.len() - i,
        {
            assert(valid_event(src[i as int]));
            let expanded = expand(&self.events[i], ws, we);
            match expanded {
                Err(e) => {
                    return Err(e);
                },
                Ok(mut more) => {
                    let ghost prev = event_views(out@);
                    let ghost add = event_views(more@);
                    out.append(&mut more);
                    proof {
                        let now = event_views(out@);
                        let n = add.len() as int;
                        assert(now =~= prev + add);
                        assert(now.subrange(now.len() - n, now.len() as int) =~= add);
                        assert(now.subrange(0, now.len() - n) =~= prev);
                        assert(src.take(i + 1).drop_last() =~= src.take(i as int));
                        assert(src.take(i + 1).last() == self.events@[i as int]@);
                        assert(expands_to(
                            src.take(i + 1).last(),
                            ws,
                            we,
                            now.subrange(now.len() - n, now.len() as int),
                        ));
                        assert(forall|j: int| 0 <= j < add.len() ==> valid_event(#[trigger] add[j]))
                            by {
                            lemma_expansion_valid(self.events@[i as int]@, ws, we, add);
                        }
                        assert forall|j: int| 0 <= j < now.len() implies valid_event(
                            #[trigger] now[j],
                        ) by {
                            if j >= prev.len() {
                                assert(now[j] == add[j - prev.len()]);
                            }
                        }
                    }
                },
            }
            i = i + 1;
        }
        assert(src.take(i as int) =~= src);
        self.events = out;
        Ok(())
    }
}

/// Every occurrence of a valid event is a valid event.
pub proof fn lemma_expansion_valid(e: EventView, ws: DateTime, we: DateTime, r: Seq<EventView>)
    requires
        valid_event(e),
        expands_to(e, ws, we, r),
    ensures
        forall|j: int| 0 <= j < r.len() ==> valid_event(#[trigger] r[j]),
{
    match e.recurrence {
        None => {},
        Some(rule) => {
            let k0 = choose|k0: int|
                #![trigger crate::event::is_occurrence(e, r[0], k0)]
                k0 >= 0 && (forall|k: int|
                    crate::event::admissible(e, ws, we, k) <==> k0 <= k < k0 + r.len()) && (forall|
                    i: int,
                |
                    0 <= i < r.len() ==> crate::event::is_occurrence(e, #[trigger] r[i], k0 + i));
            assert forall|j: int| 0 <= j < r.len() implies valid_event(#[trigger] r[j]) by {
                assert(crate::event::is_occurrence(e, r[j], k0 + j));
            }
        },
    }
}

} // verus!
