//! Choices the tracker page makes from the data: colours and month names.

use vstd::prelude::*;
use crate::principles::EventType;

verus! {

/// Row colour of a bar-raising accomplishment.
pub const C_BAR_RAISING: &'static str = "#1d6860";

/// Row colour of an invest-in-yourself accomplishment.
pub const C_INVEST_IN_YOURSELF: &'static str = "#555577";

/// Colour of a summary cell counting one to three mentions.
pub const C_FEW_MENTIONS: &'static str = "#7d5a0c";

/// Colour of a summary cell counting more than three mentions.
pub const C_MANY_MENTIONS: &'static str = "#892e44";

/// The background of a row of the events table: by the kind of event, none
/// for an event of no particular kind.
pub fn event_row_color(t: EventType) -> (c: Option<&'static str>)
    ensures
        match t {
            EventType::BarRaise => c == Some(C_BAR_RAISING),
            EventType::InvestInYourSelf => c == Some(C_INVEST_IN_YOURSELF),
            EventType::Unspecified => c is None,
        },
{
    match t {
        EventType::BarRaise => Some(C_BAR_RAISING),
        EventType::InvestInYourSelf => Some(C_INVEST_IN_YOURSELF),
        EventType::Unspecified => None,
    }
}

/// The background of a cell of the monthly summary holding `value`: none
/// for zero, one colour for one to three, another above three.
pub fn summary_cell_color(value: usize) -> (c: Option<&'static str>)
    ensures
        value == 0 ==> c is None,
        1 <= value <= 3 ==> c == Some(C_FEW_MENTIONS),
        value > 3 ==> c == Some(C_MANY_MENTIONS),
{
    if value == 0 {
        None
    } else if value <= 3 {
        Some(C_FEW_MENTIONS)
    } else {
        Some(C_MANY_MENTIONS)
    }
}

/// The English name of month `number` (counted from 1).
pub open spec fn month_name_of(number: int) -> Seq<char> {
    if number == 1 {
        "January"@
    } else if number == 2 {
        "February"@
    } else if number == 3 {
        "March"@
    } else if number == 4 {
        "April"@
    } else if number == 5 {
        "May"@
    } else if number == 6 {
        "June"@
    } else if number == 7 {
        "July"@
    } else if number == 8 {
        "August"@
    } else if number == 9 {
        "September"@
    } else if number == 10 {
        "October"@
    } else if number == 11 {
        "November"@
    } else {
        "December"@
    }
}

/// `chrono::Month::try_from(number)` followed by `Month::name`: the month
/// exists for 1 to 12, and its name is the English one.
#[verifier::external_body]
fn chrono_month_name(number: u8) -> (name: Option<&'static str>)
    ensures
        1 <= number <= 12 ==> name is Some && name.unwrap()@ == month_name_of(number as int),
        !(1 <= number <= 12) ==> name is None,
{
    match chrono::Month::try_from(number) {
        Ok(m) => Some(m.name()),
        Err(_) => None,
    }
}

/// The English name of the month counted from 0 `month0`.
pub fn month_name(month0: usize) -> (name: &'static str)
    requires
        month0 < 12,
    ensures
        name@ == month_name_of(month0 + 1),
{
    match chrono_month_name(month0 as u8 + 1) {
        Some(s) => s,
        None => "",
    }
}

} // verus!
