//! Summaries of a collection of events: which years and months have events,
//! and how often each leadership principle is named.

use vstd::prelude::*;
use std::collections::HashSet;
use crate::event::{AccomplishmentData, Event};
use crate::principles::LeadershipPrinciples;
use crate::text::str_equal;

verus! {

broadcast use vstd::std_specs::hash::group_hash_axioms;

/// Every event has a month between 1 and 12.
pub open spec fn months_in_range(events: Seq<Event>) -> bool {
    forall|i: int| 0 <= i < events.len() ==> 1 <= (#[trigger] events[i]).date.month <= 12
}

/// The event falls in `year` (as the year converts to `usize`) and in the
/// month counted from 0 `month0`.
pub open spec fn in_year_month(e: Event, year: usize, month0: usize) -> bool {
    &&& e.date.year as usize == year
    &&& e.date.month - 1 == month0
}

/// Whether the event falls in `year` and in the month counted from 0 `month0`.
pub fn event_in_month(e: &Event, year: usize, month0: usize) -> (b: bool)
    requires
        e.date.month >= 1,
    ensures
        b == in_year_month(*e, year, month0),
        b == (e.date.year as usize == year && e.date.month == month0 + 1),
{
    e.date.year() as usize == year && e.date.month0() as usize == month0
}

/// For each month counted from 0, whether some event falls in that month of
/// `year`.
pub fn collect_unique_months_by_year(data: &AccomplishmentData, year: usize) -> (rt: [bool; 12])
    requires
        months_in_range(data.events@),
    ensures
        forall|m: int|
            0 <= m < 12 ==> (rt@[m] <==> exists|i: int|
                0 <= i < data.events@.len() && in_year_month(
                    #[trigger] data.events@[i],
                    year,
                    m as usize,
                )),
        forall|m: int|
            0 <= m < 12 ==> (rt@[m] <==> exists|i: int|
                0 <= i < data.events@.len() && (#[trigger] data.events@[i]).date.year as usize == year
                    && data.events@[i].date.month == m + 1),
{
    let mut rt = [false; 12];
    let n = data.events.len();
    for k in 0..n
        invariant
            n == data.events@.len(),
            months_in_range(data.events@),
            rt@.len() == 12,
            forall|m: int|
                0 <= m < 12 ==> (rt@[m] <==> exists|i: int|
                    0 <= i < k && in_year_month(#[trigger] data.events@[i], year, m as usize)),
    {
        let it = &data.events[k];
        if it.date.year() as usize == year {
            let index = it.date.month0() as usize;
            rt[index] = true;
            proof {
                assert(in_year_month(data.events@[k as int], year, index));
            }
        }
    }
    rt
}

/// The years that have events (each year converted to `usize`).
pub fn collect_unique_years(data: &AccomplishmentData) -> (rt: HashSet<usize>)
    ensures
        rt@ == Set::new(
            |y: usize|
                exists|i: int|
                    0 <= i < data.events@.len() && (#[trigger] data.events@[i]).date.year as usize
                        == y,
        ),
{
    let mut rt: HashSet<usize> = HashSet::new();
    let n = data.events.len();
    for k in 0..n
        invariant
            n == data.events@.len(),
            rt@ == Set::new(
                |y: usize|
                    exists|i: int|
                        0 <= i < k && (#[trigger] data.events@[i]).date.year as usize == y,
            ),
    {
        let year = data.events[k].date.year() as usize;
        rt.insert(year);
        proof {
            assert(rt@ =~= Set::new(
                |y: usize|
                    exists|i: int|
                        0 <= i < k + 1 && (#[trigger] data.events@[i]).date.year as usize == y,
            ));
        }
    }
    rt
}

/// The event names principle `k` in one of its slots.
pub open spec fn names_principle(e: Event, k: nat) -> bool {
    e.leadership_principles@[0].index() == k || e.leadership_principles@[1].index() == k
}

/// Number of events of `year` and month `month0` that name principle `k`.
pub open spec fn principle_tally(events: Seq<Event>, year: usize, month0: usize, k: nat) -> nat
    decreases events.len(),
{
    if events.len() == 0 {
        0
    } else {
        principle_tally(events.drop_last(), year, month0, k) + if in_year_month(
            events.last(),
            year,
            month0,
        ) && names_principle(events.last(), k) {
            1nat
        } else {
            0nat
        }
    }
}

/// How the count grows: with no events it is zero, and one more event adds
/// one exactly when its year converts to `year`, its month is `month0 + 1`,
/// and one of its two slots holds principle `k`; any other event leaves the
/// count as it was.
pub proof fn lemma_tally_counts_matching_events(
    events: Seq<Event>,
    e: Event,
    year: usize,
    month0: usize,
    k: nat,
)
    ensures
        principle_tally(Seq::<Event>::empty(), year, month0, k) == 0,
        principle_tally(events.push(e), year, month0, k) == principle_tally(events, year, month0, k)
            + if e.date.year as usize == year && e.date.month - 1 == month0 && (
        e.leadership_principles@[0].index() == k || e.leadership_principles@[1].index() == k) {
            1int
        } else {
            0int
        },
{
    assert(events.push(e).drop_last() =~= events);
    assert(events.push(e).last() == e);
}

proof fn lemma_tally_bound(events: Seq<Event>, year: usize, month0: usize, k: nat)
    ensures
        principle_tally(events, year, month0, k) <= events.len(),
    decreases events.len(),
{
    if events.len() > 0 {
        lemma_tally_bound(events.drop_last(), year, month0, k);
    }
}

/// For each principle, the number of events of `year` and month `month0`
/// that name it; an event naming a principle in both slots counts once.
pub fn collect_leadership_statistic(data: &AccomplishmentData, year: usize, month: usize) -> (rt: [usize; 17])
    requires
        months_in_range(data.events@),
    ensures
        forall|k: int| 0 <= k < 17 ==> rt@[k] == principle_tally(data.events@, year, month, k as nat),
{
    let mut rt = [0usize; 17];
    let n = data.events.len();
    for i in 0..n
        invariant
            n == data.events@.len(),
            months_in_range(data.events@),
            rt@.len() == 17,
            forall|k: int|
                0 <= k < 17 ==> rt@[k] == principle_tally(data.events@.take(i as int), year, month, k as nat),
    {
        let ghost before = rt@;
        proof {
            assert(data.events@.take(i + 1).drop_last() =~= data.events@.take(i as int));
            assert forall|k: int| 0 <= k < 17 implies rt@[k] < usize::MAX by {
                lemma_tally_bound(data.events@.take(i as int), year, month, k as nat);
            }
        }
        let it = &data.events[i];
        if it.date.year() as usize == year && it.date.month0() as usize == month {
            let a = it.leadership_principles[0].to_u32() as usize;
            let b = it.leadership_principles[1].to_u32() as usize;
            if a == b {
                rt[a] += 1;
            } else {
                rt[a] += 1;
                rt[b] += 1;
            }
        }
        assert forall|k: int| 0 <= k < 17 implies rt@[k] == principle_tally(data.events@.take(i + 1), year, month, k as nat) by {
            assert(data.events@.take(i + 1).last() == data.events@[i as int]);
        }
    }
    assert(data.events@.take(n as int) =~= data.events@);
    rt
}

/// Number of slots of `e` that hold the principle at position `k`.
pub open spec fn slots_with_index(e: Event, k: nat) -> nat {
    (if e.leadership_principles@[0].index() == k {
        1nat
    } else {
        0nat
    }) + (if e.leadership_principles@[1].index() == k {
        1nat
    } else {
        0nat
    })
}

/// Over the events of `year`, the number of slots that hold principle `k`
/// (both slots count, `Empty` included).
pub open spec fn slot_tally_by_year(events: Seq<Event>, year: i32, k: nat) -> nat
    decreases events.len(),
{
    if events.len() == 0 {
        0
    } else {
        slot_tally_by_year(events.drop_last(), year, k) + if events.last().date.year == year {
            slots_with_index(events.last(), k)
        } else {
            0nat
        }
    }
}

proof fn lemma_slot_tally_bound(events: Seq<Event>, year: i32, k: nat)
    ensures
        slot_tally_by_year(events, year, k) <= 2 * events.len(),
    decreases events.len(),
{
    if events.len() > 0 {
        lemma_slot_tally_bound(events.drop_last(), year, k);
    }
}

/// For each principle position, the number of slots of the events of
/// `year` that hold it.
pub fn leadership_counts_by_year(events: &[Event], year: i32) -> (counts: [usize; 17])
    requires
        events@.len() <= usize::MAX / 2,
    ensures
        forall|k: int| 0 <= k < 17 ==> counts@[k] == slot_tally_by_year(events@, year, k as nat),
{
    let mut counts = [0usize; 17];
    let n = events.len();
    for i in 0..n
        invariant
            n == events@.len(),
            n <= usize::MAX / 2,
            counts@.len() == 17,
            forall|k: int|
                0 <= k < 17 ==> counts@[k] == slot_tally_by_year(events@.take(i as int), year, k as nat),
    {
        proof {
            assert(events@.take(i + 1).drop_last() =~= events@.take(i as int));
            assert(events@.take(i + 1).last() == events@[i as int]);
            assert forall|k: int| 0 <= k < 17 implies counts@[k] + 2 <= usize::MAX by {
                lemma_slot_tally_bound(events@.take(i as int), year, k as nat);
            }
        }
        let it = &events[i];
        if it.date.year() == year {
            let a = it.leadership_principles[0].to_u32() as usize;
            counts[a] += 1;
            let b = it.leadership_principles[1].to_u32() as usize;
            counts[b] += 1;
        }
    }
    assert(events@.take(n as int) =~= events@);
    counts
}

/// Number of slots of `e` whose principle is named `name`.
pub open spec fn slots_named(e: Event, name: Seq<char>) -> nat {
    (if e.leadership_principles@[0].name() == name {
        1nat
    } else {
        0nat
    }) + (if e.leadership_principles@[1].name() == name {
        1nat
    } else {
        0nat
    })
}

/// Over the events of `year` in month `month` (counted from 1), the number
/// of slots whose principle is named `name`.
pub open spec fn monthly_tally(events: Seq<Event>, name: Seq<char>, year: i32, month: nat) -> nat
    decreases events.len(),
{
    if events.len() == 0 {
        0
    } else {
        monthly_tally(events.drop_last(), name, year, month) + if events.last().date.year == year
            && events.last().date.month == month {
            slots_named(events.last(), name)
        } else {
            0nat
        }
    }
}

proof fn lemma_monthly_tally_bound(events: Seq<Event>, name: Seq<char>, year: i32, month: nat)
    ensures
        monthly_tally(events, name, year, month) <= 2 * events.len(),
    decreases events.len(),
{
    if events.len() > 0 {
        lemma_monthly_tally_bound(events.drop_last(), name, year, month);
    }
}

/// How the yearly count grows: with no events it is zero, and one more
/// event of year `year` adds one for each of its two slots that holds
/// principle `k`; an event of another year adds nothing.
pub proof fn lemma_yearly_count_grows(events: Seq<Event>, e: Event, year: i32, k: nat)
    ensures
        slot_tally_by_year(Seq::<Event>::empty(), year, k) == 0,
        slot_tally_by_year(events.push(e), year, k) == slot_tally_by_year(events, year, k) + if e.date.year
            == year {
            (if e.leadership_principles@[0].index() == k {
                1int
            } else {
                0int
            }) + (if e.leadership_principles@[1].index() == k {
                1int
            } else {
                0int
            })
        } else {
            0int
        },
{
    assert(events.push(e).drop_last() =~= events);
    assert(events.push(e).last() == e);
}

/// How the monthly count grows: with no events it is zero, and one more
/// event of year `year` and month `month` adds one for each of its two
/// slots whose principle is named `name`; any other event adds nothing.
pub proof fn lemma_monthly_count_grows(events: Seq<Event>, e: Event, name: Seq<char>, year: i32, month: nat)
    ensures
        monthly_tally(Seq::<Event>::empty(), name, year, month) == 0,
        monthly_tally(events.push(e), name, year, month) == monthly_tally(events, name, year, month)
            + if e.date.year == year && e.date.month == month {
            (if e.leadership_principles@[0].name() == name {
                1int
            } else {
                0int
            }) + (if e.leadership_principles@[1].name() == name {
                1int
            } else {
                0int
            })
        } else {
            0int
        },
{
    assert(events.push(e).drop_last() =~= events);
    assert(events.push(e).last() == e);
}

/// For the principle named `lp`, the number of slots naming it among the
/// events of `year`, by month: entry `m` is for month `m` counted from 1,
/// and entry 0 stays 0.
pub fn monthly_counts_for_principle(events: &[Event], lp: &str, year: i32) -> (counts: [usize; 13])
    requires
        months_in_range(events@),
        events@.len() <= usize::MAX / 2,
    ensures
        forall|m: int| 0 <= m < 13 ==> counts@[m] == monthly_tally(events@, lp@, year, m as nat),
{
    let mut counts = [0usize; 13];
    let n = events.len();
    for i in 0..n
        invariant
            n == events@.len(),
            n <= usize::MAX / 2,
            months_in_range(events@),
            counts@.len() == 13,
            forall|m: int|
                0 <= m < 13 ==> counts@[m] == monthly_tally(events@.take(i as int), lp@, year, m as nat),
    {
        proof {
            assert(events@.take(i + 1).drop_last() =~= events@.take(i as int));
            assert(events@.take(i + 1).last() == events@[i as int]);
            assert forall|m: int| 0 <= m < 13 implies counts@[m] + 2 <= usize::MAX by {
                lemma_monthly_tally_bound(events@.take(i as int), lp@, year, m as nat);
            }
        }
        let it = &events[i];
        if it.date.year() == year {
            let index = it.date.month() as usize;
            if str_equal(it.leadership_principles[0].to_str(), lp) {
                counts[index] += 1;
            }
            if str_equal(it.leadership_principles[1].to_str(), lp) {
                counts[index] += 1;
            }
        }
    }
    assert(events@.take(n as int) =~= events@);
    counts
}

/// The latest year among the events (as `usize`), if there are events.
pub fn latest_year(data: &AccomplishmentData) -> (y: Option<usize>)
    ensures
        match y {
            Some(y) => (exists|i: int|
                0 <= i < data.events@.len() && (#[trigger] data.events@[i]).date.year as usize == y)
                && forall|i: int|
                0 <= i < data.events@.len() ==> (#[trigger] data.events@[i]).date.year as usize <= y,
            None => data.events@.len() == 0,
        },
{
    let n = data.events.len();
    if n == 0 {
        return None;
    }
    let mut best = data.events[0].date.year() as usize;
    for i in 1..n
        invariant
            n == data.events@.len(),
            exists|j: int| 0 <= j < i && (#[trigger] data.events@[j]).date.year as usize == best,
            forall|j: int| 0 <= j < i ==> (#[trigger] data.events@[j]).date.year as usize <= best,
    {
        let y = data.events[i].date.year() as usize;
        if y > best {
            best = y;
        }
    }
    Some(best)
}

/// The last month (counted from 0) that has events, or 0 when none has.
pub fn latest_month(months: &[bool; 12]) -> (m: usize)
    ensures
        m < 12,
        (exists|k: int| 0 <= k < 12 && months@[k]) ==> months@[m as int] && forall|k: int|
            m < k < 12 ==> !months@[k],
        (forall|k: int| 0 <= k < 12 ==> !months@[k]) ==> m == 0,
{
    let mut rt: usize = 0;
    for m in 0..12
        invariant
            rt < 12,
            rt < m || m == 0,
            (exists|k: int| 0 <= k < m && months@[k]) ==> months@[rt as int] && forall|k: int|
                rt < k < m ==> !months@[k],
            (forall|k: int| 0 <= k < m ==> !months@[k]) ==> rt == 0,
    {
        if months[m] {
            rt = m;
        }
    }
    rt
}

/// The name of the principle in a slot, unless the slot is `Empty`.
pub open spec fn slot_label(p: LeadershipPrinciples) -> Seq<Seq<char>> {
    if p == LeadershipPrinciples::Empty {
        Seq::empty()
    } else {
        seq![p.name()]
    }
}

/// The names of the principles in the slots of `e`, in slot order,
/// leaving out `Empty`.
pub fn principle_labels(e: &Event) -> (labels: Vec<&'static str>)
    ensures
        labels@.map_values(|s: &str| s@) == slot_label(e.leadership_principles@[0]) + slot_label(
            e.leadership_principles@[1],
        ),
{
    let mut labels: Vec<&'static str> = Vec::new();
    let p0 = e.leadership_principles[0];
    let p1 = e.leadership_principles[1];
    if p0 != LeadershipPrinciples::Empty {
        labels.push(p0.to_str());
    }
    if p1 != LeadershipPrinciples::Empty {
        labels.push(p1.to_str());
    }
    assert(labels@.map_values(|s: &str| s@) =~= slot_label(p0) + slot_label(p1));
    labels
}

} // verus!
