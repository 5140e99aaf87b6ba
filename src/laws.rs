use vstd::prelude::*;
use crate::collection::{
    CalendarCollection, day_key_of, day_keys, month_key_of, month_keys, next_label,
    previous_label, week_key_of, week_keys,
};
use crate::date::{DateTime, instant, iso_week_start, iso_week_sunday_jd, julian_day_of};
use crate::event::{
    EventView, admissible, expands_to, in_window, is_occurrence, lemma_admissible_at, offset_days,
    valid_event,
};
use crate::index::{Bucket, BucketKey, indexes, lemma_members_contains, strictly_ascending};
use crate::label::{dedup_consecutive, join, label_separator, month_run_label};

verus! {

/// An event without a schedule expands to itself when it starts inside the window, and to
/// nothing otherwise.
pub proof fn lemma_single_event_expansion(e: EventView, ws: DateTime, we: DateTime, r: Seq<EventView>)
    requires
        e.recurrence is None,
        expands_to(e, ws, we, r),
    ensures
        in_window(e.start, ws, we) ==> r == seq![e],
        !in_window(e.start, ws, we) ==> r.len() == 0,
{
}

/// Every occurrence that a recurring event expands to starts inside the window, the
/// occurrences are consecutive steps of its schedule, and their starts strictly increase, so
/// none is repeated.
pub proof fn lemma_occurrences_in_window(e: EventView, ws: DateTime, we: DateTime, r: Seq<EventView>)
    requires
        e.recurrence is Some,
        e.recurrence->0.every_days >= 1,
        valid_event(e),
        expands_to(e, ws, we, r),
    ensures
        forall|i: int| 0 <= i < r.len() ==> in_window(#[trigger] r[i].start, ws, we),
        exists|k0: int|
            #![trigger is_occurrence(e, r[0], k0)]
            k0 >= 0 && (forall|k: int| admissible(e, ws, we, k) <==> k0 <= k < k0 + r.len())
                && forall|i: int| 0 <= i < r.len() ==> is_occurrence(e, #[trigger] r[i], k0 + i),
        forall|i: int, j: int|
            0 <= i < j < r.len() ==> instant(#[trigger] r[i].start) < instant(#[trigger] r[j].start),
{
    let p = e.recurrence->0.every_days as int;
    let k0 = choose|k0: int|
        #![trigger is_occurrence(e, r[0], k0)]
        k0 >= 0 && (forall|k: int| admissible(e, ws, we, k) <==> k0 <= k < k0 + r.len()) && (forall|
            i: int,
        | 0 <= i < r.len() ==> is_occurrence(e, #[trigger] r[i], k0 + i));
    assert forall|i: int| 0 <= i < r.len() implies in_window(#[trigger] r[i].start, ws, we) by {
        assert(is_occurrence(e, r[i], k0 + i));
        assert(admissible(e, ws, we, k0 + i));
        lemma_admissible_at(e, ws, we, k0 + i, (k0 + i) * p);
        assert(instant(r[i].start) == instant(e.start) + offset_days(e, k0 + i) * 86400);
    }
    assert forall|i: int, j: int| 0 <= i < j < r.len() implies instant(#[trigger] r[i].start)
        < instant(#[trigger] r[j].start) by {
        assert(is_occurrence(e, r[i], k0 + i));
        assert(is_occurrence(e, r[j], k0 + j));
        assert((k0 + i) * p < (k0 + j) * p) by (nonlinear_arith)
            requires
                0 <= k0 + i < k0 + j,
                p >= 1,
        ;
    }
}

/// Each event lies in exactly one bucket of an index, the bucket keyed by its own key.
pub proof fn lemma_in_exactly_one_bucket(b: Seq<Bucket>, keys: Seq<BucketKey>, e: int)
    requires
        indexes(b, keys, keys.len() as int),
        0 <= e < keys.len(),
        keys.len() <= usize::MAX,
    ensures
        exists|i: int|
            0 <= i < b.len() && #[trigger] b[i].key == keys[e] && b[i].events@.contains(e as usize),
        forall|i: int|
            0 <= i < b.len() && (#[trigger] b[i]).events@.contains(e as usize) ==> b[i].key
                == keys[e],
        forall|i: int, j: int|
            0 <= i < b.len() && 0 <= j < b.len() && (#[trigger] b[i]).events@.contains(e as usize)
                && (#[trigger] b[j]).events@.contains(e as usize) ==> i == j,
{
    let i = choose|i: int| #![trigger b[i]] 0 <= i < b.len() && b[i].key == keys[e];
    lemma_members_contains(keys, b[i].key, keys.len() as int, e);
    assert forall|j: int| 0 <= j < b.len() && (#[trigger] b[j]).events@.contains(e as usize) implies b[j].key
        == keys[e] by {
        lemma_members_contains(keys, b[j].key, keys.len() as int, e);
    }
    assert forall|i1: int, j: int|
        0 <= i1 < b.len() && 0 <= j < b.len() && (#[trigger] b[i1]).events@.contains(e as usize)
            && (#[trigger] b[j]).events@.contains(e as usize) implies i1 == j by {
        lemma_members_contains(keys, b[i1].key, keys.len() as int, e);
        lemma_members_contains(keys, b[j].key, keys.len() as int, e);
        if i1 < j {
            assert(strictly_ascending(b));
            assert(crate::index::key_lt(b[i1].key, b[j].key));
        } else if j < i1 {
            assert(crate::index::key_lt(b[j].key, b[i1].key));
        }
    }
}

/// In a collection, each event lies in exactly one month, one week and one day bucket: those
/// keyed by the month, ISO week and date of its start.
pub proof fn lemma_collection_buckets(c: CalendarCollection, e: int)
    requires
        c.wf(),
        0 <= e < c.events@.len(),
    ensures
        exists|i: int|
            0 <= i < c.months.buckets@.len() && #[trigger] c.months.buckets@[i].key == month_key_of(
                c.event_list()[e],
            ) && c.months.buckets@[i].events@.contains(e as usize),
        exists|i: int|
            0 <= i < c.weeks.buckets@.len() && #[trigger] c.weeks.buckets@[i].key == week_key_of(
                c.event_list()[e],
            ) && c.weeks.buckets@[i].events@.contains(e as usize),
        exists|i: int|
            0 <= i < c.days.buckets@.len() && #[trigger] c.days.buckets@[i].key == day_key_of(
                c.event_list()[e],
            ) && c.days.buckets@[i].events@.contains(e as usize),
        forall|i: int, j: int|
            0 <= i < c.months.buckets@.len() && 0 <= j < c.months.buckets@.len() && (
            #[trigger] c.months.buckets@[i]).events@.contains(e as usize) && (
            #[trigger] c.months.buckets@[j]).events@.contains(e as usize) ==> i == j,
        forall|i: int, j: int|
            0 <= i < c.weeks.buckets@.len() && 0 <= j < c.weeks.buckets@.len() && (
            #[trigger] c.weeks.buckets@[i]).events@.contains(e as usize) && (
            #[trigger] c.weeks.buckets@[j]).events@.contains(e as usize) ==> i == j,
        forall|i: int, j: int|
            0 <= i < c.days.buckets@.len() && 0 <= j < c.days.buckets@.len() && (
            #[trigger] c.days.buckets@[i]).events@.contains(e as usize) && (
            #[trigger] c.days.buckets@[j]).events@.contains(e as usize) ==> i == j,
{
    let s = c.event_list();
    assert(c.events@.len() <= usize::MAX);
    assert(month_keys(s)[e] == month_key_of(s[e]));
    assert(week_keys(s)[e] == week_key_of(s[e]));
    assert(day_keys(s)[e] == day_key_of(s[e]));
    lemma_in_exactly_one_bucket(c.months.buckets@, month_keys(s), e);
    lemma_in_exactly_one_bucket(c.weeks.buckets@, week_keys(s), e);
    lemma_in_exactly_one_bucket(c.days.buckets@, day_keys(s), e);
}

/// The buckets of all three indices of a collection are in strictly ascending order of key.
pub proof fn lemma_indices_ascending(c: CalendarCollection)
    requires
        c.wf(),
    ensures
        strictly_ascending(c.months.buckets@),
        strictly_ascending(c.weeks.buckets@),
        strictly_ascending(c.days.buckets@),
{
}

/// The Sunday that closes an ISO week falls on day 0 of the week counted from Sunday, so day
/// `n` of a grid falls on day `n`.
pub proof fn lemma_grid_starts_on_sunday(year: int, week: int, n: int)
    requires
        0 <= n < 7,
    ensures
        (iso_week_sunday_jd(year, week) + n + 1) % 7 == n,
{
    let jan4 = julian_day_of(year, 1, 4);
    assert(iso_week_start(year) == jan4 - jan4 % 7);
    assert((jan4 - jan4 % 7) % 7 == 0);
    let s = iso_week_start(year);
    assert((s + 7 * (week - 1) + 6 + n + 1) % 7 == n) by {
        assert(s % 7 == 0);
        assert(s + 7 * (week - 1) + 7 + n == 7 * (s / 7 + week) + n);
    }
}

proof fn lemma_dedup_constant(names: Seq<Seq<char>>, a: Seq<char>)
    requires
        names.len() >= 1,
        forall|i: int| 0 <= i < names.len() ==> names[i] == a,
    ensures
        dedup_consecutive(names) == seq![a],
    decreases names.len(),
{
    if names.len() > 1 {
        lemma_dedup_constant(names.drop_last(), a);
    } else {
        assert(dedup_consecutive(names.drop_last()) =~= Seq::<Seq<char>>::empty());
        assert(dedup_consecutive(names) =~= seq![a]);
    }
}

proof fn lemma_dedup_two(names: Seq<Seq<char>>, a: Seq<char>, b: Seq<char>, k: int)
    requires
        1 <= k < names.len(),
        a != b,
        forall|i: int| 0 <= i < k ==> names[i] == a,
        forall|i: int| k <= i < names.len() ==> names[i] == b,
    ensures
        dedup_consecutive(names) == seq![a, b],
    decreases names.len(),
{
    if names.len() == k + 1 {
        lemma_dedup_constant(names.drop_last(), a);
        assert(dedup_consecutive(names) =~= seq![a].push(b));
    } else {
        lemma_dedup_two(names.drop_last(), a, b, k);
    }
}

/// The month label of days that all lie in one month is that month's name.
pub proof fn lemma_label_one_month(names: Seq<Seq<char>>, a: Seq<char>)
    requires
        names.len() >= 1,
        forall|i: int| 0 <= i < names.len() ==> names[i] == a,
    ensures
        month_run_label(names) == a,
{
    lemma_dedup_constant(names, a);
}

/// The month label of days that run from month `a` into month `b` is "a - b".
pub proof fn lemma_label_two_months(names: Seq<Seq<char>>, a: Seq<char>, b: Seq<char>, k: int)
    requires
        1 <= k < names.len(),
        a != b,
        forall|i: int| 0 <= i < k ==> names[i] == a,
        forall|i: int| k <= i < names.len() ==> names[i] == b,
    ensures
        month_run_label(names) == a + label_separator() + b,
{
    lemma_dedup_two(names, a, b, k);
    let d = seq![a, b];
    assert(d.drop_last() =~= seq![a]);
    assert(join(d.drop_last(), label_separator()) == a);
}

/// A page's previous label is that of the page before it and its next label that of the page
/// after it; the first page has no previous label and the last no next label.
pub proof fn lemma_pagination(labels: Seq<Seq<char>>, i: int)
    requires
        0 <= i < labels.len(),
    ensures
        i > 0 ==> previous_label(labels, i) == Some(labels[i - 1]),
        i + 1 < labels.len() ==> next_label(labels, i) == Some(labels[i + 1]),
        previous_label(labels, 0) is None,
        next_label(labels, labels.len() - 1) is None,
{
}

} // verus!
