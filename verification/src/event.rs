//! Accomplishment events: their calendar dates, the collection of events and
//! its ordering, and the conversion from the TOML form of an event.

use vstd::prelude::*;
use vstd::string::*;
use vstd::utf8::*;
use chrono::TimeZone;
use pulldown_cmark::{html, Options, Parser};
use crate::fixed_string::{CustomStringTrait, LargeString, TinyString, holds_bytes};
use crate::principles::{EventType, LeadershipPrinciples};

verus! {

// ---------------------------------------------------------------------------
// Calendar dates
// ---------------------------------------------------------------------------

/// Whether `year` is a leap year of the proleptic Gregorian calendar.
pub open spec fn is_leap_year(year: int) -> bool {
    (year % 4 == 0 && year % 100 != 0) || year % 400 == 0
}

/// Number of days in `month` (1 to 12) of `year`.
pub open spec fn days_in_month(year: int, month: int) -> int {
    if month == 2 {
        if is_leap_year(year) {
            29
        } else {
            28
        }
    } else if month == 4 || month == 6 || month == 9 || month == 11 {
        30
    } else {
        31
    }
}

/// Whether year, month and day name a day of the proleptic Gregorian
/// calendar in the range of years that `chrono` represents.
pub open spec fn is_calendar_date(year: int, month: int, day: int) -> bool {
    &&& -262143 <= year <= 262142
    &&& 1 <= month <= 12
    &&& 1 <= day <= days_in_month(year, month)
}

/// `chrono`'s `Utc.with_ymd_and_hms(year, month, day, 0, 0, 0)`, reporting
/// whether it names exactly one instant.  `chrono` documents that the date
/// must exist in the proleptic Gregorian calendar with a month and day in
/// range, and its source bounds the year to -262143..=262142; the UTC
/// offset never makes midnight ambiguous.
#[verifier::external_body]
fn utc_midnight_exists(year: i32, month: u32, day: u32) -> (b: bool)
    ensures
        b == is_calendar_date(year as int, month as int, day as int),
{
    chrono::Utc.with_ymd_and_hms(year, month, day, 0, 0, 0).single().is_some()
}

/// The calendar date of an event (its time of day is always midnight UTC).
#[derive(PartialEq, Eq, Structural, Debug, Clone, Copy)]
pub struct CalendarDate {
    pub year: i32,
    /// 1 to 12.
    pub month: u32,
    /// 1 to 31.
    pub day: u32,
}

impl CalendarDate {
    pub open spec fn valid(self) -> bool {
        is_calendar_date(self.year as int, self.month as int, self.day as int)
    }

    /// Whether the date exists in the calendar.
    pub fn is_valid(&self) -> (b: bool)
        ensures
            b == self.valid(),
    {
        utc_midnight_exists(self.year, self.month, self.day)
    }

    pub fn year(&self) -> (y: i32)
        ensures
            y == self.year,
    {
        self.year
    }

    /// The month counted from 1.
    pub fn month(&self) -> (m: u32)
        ensures
            m == self.month,
    {
        self.month
    }

    /// The month counted from 0.
    pub fn month0(&self) -> (m: u32)
        requires
            self.month >= 1,
        ensures
            m == self.month - 1,
    {
        self.month - 1
    }

    pub fn day(&self) -> (d: u32)
        ensures
            d == self.day,
    {
        self.day
    }
}

/// Chronological order of dates: by year, then month, then day.
pub open spec fn date_le(a: CalendarDate, b: CalendarDate) -> bool {
    ||| a.year < b.year
    ||| (a.year == b.year && a.month < b.month)
    ||| (a.year == b.year && a.month == b.month && a.day <= b.day)
}

fn date_less_equal(a: &CalendarDate, b: &CalendarDate) -> (r: bool)
    ensures
        r == date_le(*a, *b),
{
    if a.year != b.year {
        a.year < b.year
    } else if a.month != b.month {
        a.month < b.month
    } else {
        a.day <= b.day
    }
}

// ---------------------------------------------------------------------------
// Events
// ---------------------------------------------------------------------------

/// One accomplishment.
#[derive(PartialEq, Eq, Debug)]
pub struct Event {
    pub date: CalendarDate,
    /// Up to two principles; unused slots hold `Empty`.
    pub leadership_principles: [LeadershipPrinciples; 2],
    pub event_type: EventType,
    /// HTML summary.
    pub summary: TinyString,
    /// HTML details.
    pub details: LargeString,
}

impl Default for Event {
    fn default() -> (e: Event)
        ensures
            e.date == (CalendarDate { year: 1970, month: 1, day: 1 }),
            e.leadership_principles@ == seq![
                LeadershipPrinciples::Empty,
                LeadershipPrinciples::Empty,
            ],
            e.event_type == EventType::Unspecified,
            e.summary.length == 0,
            e.details.length == 0,
    {
        let e = Event {
            date: CalendarDate { year: 1970, month: 1, day: 1 },
            leadership_principles: [LeadershipPrinciples::Empty, LeadershipPrinciples::Empty],
            event_type: EventType::Unspecified,
            summary: TinyString::default(),
            details: LargeString::default(),
        };
        assert(e.leadership_principles@ =~= seq![
            LeadershipPrinciples::Empty,
            LeadershipPrinciples::Empty,
        ]);
        e
    }
}

/// A collection of events.
pub struct AccomplishmentData {
    pub events: Vec<Event>,
}

impl Default for AccomplishmentData {
    fn default() -> (d: AccomplishmentData)
        ensures
            d.events@.len() == 0,
    {
        AccomplishmentData { events: Vec::new() }
    }
}

/// Events are in chronological order.
pub open spec fn sorted_by_date(events: Seq<Event>) -> bool {
    forall|i: int, j: int| 0 <= i < j < events.len() ==> date_le(events[i].date, events[j].date)
}

/// `s` is `orig` rearranged: `s[k]` is `orig[perm[k]]`, each position of
/// `orig` used once.
pub open spec fn rearranges(s: Seq<Event>, orig: Seq<Event>, perm: Seq<int>) -> bool {
    &&& s.len() == orig.len()
    &&& perm.len() == s.len()
    &&& forall|k: int| 0 <= k < s.len() ==> 0 <= #[trigger] perm[k] < s.len() && s[k] == orig[perm[k]]
    &&& forall|a: int, b: int| 0 <= a < b < s.len() ==> #[trigger] perm[a] != #[trigger] perm[b]
}

/// Events with the same date keep their original relative order.
pub open spec fn keeps_order_of_equal_dates(s: Seq<Event>, perm: Seq<int>) -> bool {
    forall|a: int, b: int|
        0 <= a < b < s.len() && (#[trigger] s[a]).date == (#[trigger] s[b]).date ==> perm[a] < perm[b]
}

/// The state of insertion sorting after the first `i` events are placed.
spec fn insertion_state(s: Seq<Event>, orig: Seq<Event>, perm: Seq<int>, i: int) -> bool {
    &&& rearranges(s, orig, perm)
    &&& forall|k: int| i <= k < s.len() ==> #[trigger] perm[k] == k
    &&& forall|k: int| 0 <= k < i ==> #[trigger] perm[k] < i
    &&& forall|a: int, b: int| 0 <= a < b < i ==> #[trigger] date_le(s[a].date, s[b].date)
    &&& forall|a: int, b: int|
        0 <= a < b < i && (#[trigger] s[a]).date == (#[trigger] s[b]).date ==> perm[a] < perm[b]
}

/// Moving event `i` to position `j`, after the events not later than it and
/// before those later than it, places one more event.
proof fn lemma_insertion_step(
    before: Seq<Event>,
    orig: Seq<Event>,
    perm: Seq<int>,
    i: int,
    j: int,
    after: Seq<Event>,
)
    requires
        insertion_state(before, orig, perm, i),
        0 <= j <= i < before.len(),
        forall|k: int| j <= k < i ==> !date_le(#[trigger] before[k].date, before[i].date),
        j > 0 ==> date_le(before[j - 1].date, before[i].date),
        after == before.remove(i).insert(j, before[i]),
    ensures
        insertion_state(after, orig, perm.remove(i).insert(j, i), i + 1),
{
    let x = before[i];
    let p2 = perm.remove(i).insert(j, i);
    assert(after.len() == before.len());
    assert(p2.len() == perm.len());
    assert forall|k: int| 0 <= k < after.len() implies (k < j ==> after[k] == before[k] && p2[k]
        == perm[k]) && (k == j ==> after[k] == x && p2[k] == i) && (j < k <= i ==> after[k]
        == before[k - 1] && p2[k] == perm[k - 1]) && (k > i ==> after[k] == before[k] && p2[k]
        == perm[k]) by {}
    assert forall|k: int| 0 <= k < after.len() implies 0 <= #[trigger] p2[k] < after.len()
        && after[k] == orig[p2[k]] by {
        if k == j {
            assert(perm[i] == i);
        }
    }
    assert forall|a: int, b: int| 0 <= a < b < after.len() implies #[trigger] p2[a]
        != #[trigger] p2[b] by {
        if a == j {
            if b > i {
                assert(perm[b] == b);
            } else {
                assert(perm[b - 1] < i);
            }
        } else if b == j {
            assert(perm[a] < i);
        } else {
            let a0 = if a < j {
                a
            } else if a <= i {
                a - 1
            } else {
                a
            };
            let b0 = if b < j {
                b
            } else if b <= i {
                b - 1
            } else {
                b
            };
            assert(a0 < b0);
            assert(perm[a0] != perm[b0]);
        }
    }
    assert forall|a: int, b: int| 0 <= a < b < i + 1 implies #[trigger] date_le(
        after[a].date,
        after[b].date,
    ) by {
        if b < j {
            assert(date_le(before[a].date, before[b].date));
        } else if b == j {
            if a < j - 1 {
                assert(date_le(before[a].date, before[j - 1].date));
            }
        } else if a == j {
            assert(!date_le(before[b - 1].date, x.date));
        } else if a < j {
            assert(date_le(before[a].date, before[b - 1].date));
        } else {
            assert(date_le(before[a - 1].date, before[b - 1].date));
        }
    }
    assert forall|a: int, b: int|
        0 <= a < b < i + 1 && (#[trigger] after[a]).date == (#[trigger] after[b]).date implies p2[a]
        < p2[b] by {
        if b < j {
            assert(perm[a] < perm[b]);
        } else if b == j {
            assert(perm[a] < i);
        } else if a == j {
            assert(!date_le(before[b - 1].date, x.date));
        } else if a < j {
            assert(perm[a] < perm[b - 1]);
        } else {
            assert(perm[a - 1] < perm[b - 1]);
        }
    }
}

impl AccomplishmentData {
    /// Puts the events in chronological order, keeping the same events;
    /// events with the same date keep their order (the sort is stable).
    pub fn sort(&mut self)
        ensures
            sorted_by_date(final(self).events@),
            forall|i: int, j: int|
                #![trigger final(self).events@[i], final(self).events@[j]]
                0 <= i < j < final(self).events@.len() ==> {
                    let a = final(self).events@[i].date;
                    let b = final(self).events@[j].date;
                    ||| a.year < b.year
                    ||| (a.year == b.year && a.month < b.month)
                    ||| (a.year == b.year && a.month == b.month && a.day <= b.day)
                },
            final(self).events@.to_multiset() == old(self).events@.to_multiset(),
            exists|perm: Seq<int>|
                rearranges(final(self).events@, old(self).events@, perm)
                    && keeps_order_of_equal_dates(final(self).events@, perm),
    {
        let n = self.events.len();
        let ghost orig = self.events@;
        let ghost mut perm: Seq<int> = Seq::new(n as nat, |k: int| k);
        if n == 0 {
            assert(rearranges(self.events@, orig, perm));
            assert(keeps_order_of_equal_dates(self.events@, perm));
            return;
        }
        let mut i: usize = 1;
        proof {
            assert(insertion_state(self.events@, orig, perm, 1));
        }
        while i < n
            invariant
                1 <= i <= n,
                self.events@.len() == n,
                orig == old(self).events@,
                insertion_state(self.events@, orig, perm, i as int),
                self.events@.to_multiset() == old(self).events@.to_multiset(),
            decreases n - i,
        {
            let ghost before = self.events@;
            let x = self.events.remove(i);
            proof {
                vstd::seq_lib::to_multiset_remove(before, i as int);
            }
            let ghost removed = self.events@;
            let mut j = i;
            while j > 0 && !date_less_equal(&self.events[j - 1].date, &x.date)
                invariant
                    0 <= j <= i,
                    i < n,
                    self.events@ == removed,
                    removed.len() == n - 1,
                    forall|k: int| j <= k < i ==> !date_le(#[trigger] removed[k].date, x.date),
                decreases j,
            {
                j = j - 1;
            }
            self.events.insert(j, x);
            proof {
                vstd::seq_lib::to_multiset_insert(removed, j as int, x);
                vstd::seq_lib::to_multiset_contains(before, x);
                assert(before.contains(x)) by {
                    assert(before[i as int] == x);
                }
                assert(self.events@.to_multiset() =~= before.to_multiset());
                assert forall|k: int| j <= k < i implies !date_le(#[trigger] before[k].date, before[i as int].date) by {
                    assert(removed[k] == before[k]);
                }
                if j > 0 {
                    assert(removed[j - 1] == before[j - 1]);
                }
                lemma_insertion_step(before, orig, perm, i as int, j as int, self.events@);
                perm = perm.remove(i as int).insert(j as int, i as int);
            }
            i = i + 1;
        }
        proof {
            assert(sorted_by_date(self.events@));
            assert(keeps_order_of_equal_dates(self.events@, perm));
            lemma_sorted_means_calendar_order(self.events@);
        }
    }
}

/// Events in date order are in calendar order: for each earlier event, the
/// year is smaller, or the year is the same and the month smaller, or year
/// and month are the same and the day is not larger.
pub proof fn lemma_sorted_means_calendar_order(events: Seq<Event>)
    requires
        sorted_by_date(events),
    ensures
        forall|i: int, j: int|
            #![trigger events[i], events[j]]
            0 <= i < j < events.len() ==> {
                let a = events[i].date;
                let b = events[j].date;
                ||| a.year < b.year
                ||| (a.year == b.year && a.month < b.month)
                ||| (a.year == b.year && a.month == b.month && a.day <= b.day)
            },
{
    assert forall|i: int, j: int| #![trigger events[i], events[j]] 0 <= i < j < events.len() implies {
        let a = events[i].date;
        let b = events[j].date;
        ||| a.year < b.year
        ||| (a.year == b.year && a.month < b.month)
        ||| (a.year == b.year && a.month == b.month && a.day <= b.day)
    } by {
        assert(date_le(events[i].date, events[j].date));
    }
}

// ---------------------------------------------------------------------------
// The TOML form of an event
// ---------------------------------------------------------------------------

/// The date part of a TOML datetime.
#[derive(PartialEq, Eq, Debug, Clone, Copy)]
pub struct TomlDate {
    pub year: u16,
    pub month: u8,
    pub day: u8,
}

/// The time part of a TOML datetime.
#[derive(PartialEq, Eq, Debug, Clone, Copy)]
pub struct TomlTime {
    pub hour: u8,
    pub minute: u8,
    pub second: Option<u8>,
    pub nanosecond: Option<u32>,
}

/// The offset part of a TOML datetime.
#[derive(PartialEq, Eq, Debug, Clone, Copy)]
pub enum TomlOffset {
    Z,
    Custom { minutes: i16 },
}

/// A TOML datetime: each part may be absent.
#[derive(PartialEq, Eq, Debug, Clone, Copy)]
pub struct TomlDatetime {
    pub date: Option<TomlDate>,
    pub time: Option<TomlTime>,
    pub offset: Option<TomlOffset>,
}

/// An event as written in the TOML report.
#[derive(PartialEq, Eq, Debug)]
pub struct TomlEvent {
    pub date: TomlDatetime,
    pub leadership_principles: Vec<LeadershipPrinciples>,
    pub event_type: EventType,
    /// Markdown.
    pub summary: String,
    /// Markdown.
    pub details: String,
}

/// The HTML that pulldown-cmark renders from the markdown `input`, with
/// strikethrough enabled.
pub uninterp spec fn markdown_html(input: Seq<char>) -> Seq<char>;

/// pulldown-cmark's `Parser::new_ext` with `Options::ENABLE_STRIKETHROUGH`,
/// rendered by `html::push_html` into an empty string.  The result is named
/// [`markdown_html`] of the input; what the HTML looks like is not stated.
#[verifier::external_body]
fn markdown_to_html(input: &str) -> (html_output: String)
    ensures
        html_output@ == markdown_html(input@),
{
    let mut options = Options::empty();
    options.insert(Options::ENABLE_STRIKETHROUGH);
    let parser = Parser::new_ext(input, options);
    let mut html_output = String::new();
    html::push_html(&mut html_output, parser);
    html_output
}

/// The two principle slots filled from a list: the first two entries, and
/// `Empty` for slots the list does not reach.
pub open spec fn principle_slots(lps: Seq<LeadershipPrinciples>) -> Seq<LeadershipPrinciples> {
    Seq::new(
        2,
        |k: int|
            if k < lps.len() {
                lps[k]
            } else {
                LeadershipPrinciples::Empty
            },
    )
}

impl TomlEvent {
    /// Whether the event carries a date that exists in the calendar.
    pub open spec fn has_valid_date(self) -> bool {
        &&& self.date.date is Some
        &&& is_calendar_date(
            self.date.date.unwrap().year as int,
            self.date.date.unwrap().month as int,
            self.date.date.unwrap().day as int,
        )
    }

    /// Whether [`TomlEvent::to_event`] accepts the event.
    pub fn has_valid_date_exec(&self) -> (b: bool)
        ensures
            b == self.has_valid_date(),
    {
        match self.date.date {
            Some(d) => utc_midnight_exists(d.year as i32, d.month as u32, d.day as u32),
            None => false,
        }
    }

    /// The event in stored form: midnight of its date, its first two
    /// principles, and its summary and details rendered from markdown to
    /// HTML and cut to the capacity of their buffers.
    pub fn to_event(&self) -> (e: Event)
        requires
            self.has_valid_date(),
        ensures
            converts_to(*self, e),
            e.date.valid(),
            e.event_type == self.event_type,
            e.date.year == self.date.date.unwrap().year as i32,
            e.date.month == self.date.date.unwrap().month as u32,
            e.date.day == self.date.date.unwrap().day as u32,
    {
        let d = self.date.date.unwrap();
        let mut lp = [LeadershipPrinciples::Empty, LeadershipPrinciples::Empty];
        let n = self.leadership_principles.len();
        let mut i: usize = 0;
        while i < n
            invariant
                n == self.leadership_principles@.len(),
                i <= n,
                i <= 2,
                forall|k: int|
                    0 <= k < 2 ==> lp@[k] == (if k < i {
                        self.leadership_principles@[k]
                    } else {
                        LeadershipPrinciples::Empty
                    }),
            ensures
                forall|k: int|
                    0 <= k < 2 ==> lp@[k] == (if k < n {
                        self.leadership_principles@[k]
                    } else {
                        LeadershipPrinciples::Empty
                    }),
            decreases n - i,
        {
            if i > 1 {
                break;
            }
            lp[i] = self.leadership_principles[i];
            i = i + 1;
        }
        let summary_html = markdown_to_html(self.summary.as_str());
        let details_html = markdown_to_html(self.details.as_str());
        let e = Event {
            date: CalendarDate { year: d.year as i32, month: d.month as u32, day: d.day as u32 },
            leadership_principles: lp,
            event_type: self.event_type,
            summary: TinyString::from_str(summary_html.as_str()),
            details: LargeString::from_str(details_html.as_str()),
        };
        assert(e.leadership_principles@ =~= principle_slots(self.leadership_principles@));
        e
    }
}

/// The events of a TOML report.
pub struct TomlAccomplishmentData {
    pub events: Vec<TomlEvent>,
}

impl TomlAccomplishmentData {
    /// Conversion of a whole report is not implemented: the result is
    /// always empty.  [`events_from_toml`] converts the events one by one.
    pub fn to_accomplishmentdata(self) -> (d: AccomplishmentData)
        ensures
            d.events@.len() == 0,
    {
        AccomplishmentData::default()
    }
}

/// The stored events of a TOML report, in chronological order: every event
/// of the report converted by [`TomlEvent::to_event`], then sorted.
pub fn events_from_toml(report: &TomlAccomplishmentData) -> (d: AccomplishmentData)
    requires
        forall|i: int|
            0 <= i < report.events@.len() ==> (#[trigger] report.events@[i]).has_valid_date(),
    ensures
        d.events@.len() == report.events@.len(),
        sorted_by_date(d.events@),
        exists|converted: Seq<Event>|
            #![trigger converted.to_multiset()]
            {
                &&& converted.len() == report.events@.len()
                &&& forall|i: int|
                    0 <= i < converted.len() ==> converts_to(report.events@[i], #[trigger] converted[i])
                &&& d.events@.to_multiset() == converted.to_multiset()
                &&& exists|perm: Seq<int>|
                    rearranges(d.events@, converted, perm) && keeps_order_of_equal_dates(
                        d.events@,
                        perm,
                    )
            },
{
    let mut data = AccomplishmentData::default();
    let n = report.events.len();
    for i in 0..n
        invariant
            n == report.events@.len(),
            data.events@.len() == i,
            forall|k: int|
                0 <= k < n ==> (#[trigger] report.events@[k]).has_valid_date(),
            forall|k: int|
                0 <= k < i ==> converts_to(report.events@[k], #[trigger] data.events@[k]),
    {
        let e = report.events[i].to_event();
        data.events.push(e);
    }
    let ghost converted = data.events@;
    data.sort();
    assert(converted.len() == report.events@.len());
    assert(forall|i: int|
        0 <= i < converted.len() ==> converts_to(report.events@[i], #[trigger] converted[i]));
    assert(data.events@.to_multiset() == converted.to_multiset());
    proof {
        vstd::seq_lib::to_multiset_len(data.events@);
        vstd::seq_lib::to_multiset_len(converted);
    }
    data
}

/// `e` is the stored form of the TOML event `t` (the result of
/// [`TomlEvent::to_event`]).
pub open spec fn converts_to(t: TomlEvent, e: Event) -> bool {
    &&& e.date == (CalendarDate {
        year: t.date.date.unwrap().year as i32,
        month: t.date.date.unwrap().month as u32,
        day: t.date.date.unwrap().day as u32,
    })
    &&& e.leadership_principles@ == principle_slots(t.leadership_principles@)
    &&& e.event_type == t.event_type
    &&& holds_bytes(
        e.summary.length,
        e.summary.buffer@,
        encode_utf8(markdown_html(t.summary@)),
        104,
    )
    &&& holds_bytes(
        e.details.length,
        e.details.buffer@,
        encode_utf8(markdown_html(t.details@)),
        400,
    )
}


/// The stored form keeps what the TOML event says: its kind, its date, and
/// its first two principles in order (`Empty` for a missing one).
pub proof fn lemma_conversion_keeps_fields(t: TomlEvent, e: Event)
    requires
        converts_to(t, e),
    ensures
        e.event_type == t.event_type,
        e.date.year == t.date.date.unwrap().year as i32,
        e.date.month == t.date.date.unwrap().month as u32,
        e.date.day == t.date.date.unwrap().day as u32,
        e.leadership_principles@[0] == (if t.leadership_principles@.len() > 0 {
            t.leadership_principles@[0]
        } else {
            LeadershipPrinciples::Empty
        }),
        e.leadership_principles@[1] == (if t.leadership_principles@.len() > 1 {
            t.leadership_principles@[1]
        } else {
            LeadershipPrinciples::Empty
        }),
{
}

} // verus!
