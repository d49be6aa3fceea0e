use accomplishment_tracker::event::{AccomplishmentData, CalendarDate, Event};
use accomplishment_tracker::fixed_string::{LargeString, TinyString};
use accomplishment_tracker::presentation::{
    event_row_color, month_name, summary_cell_color, C_BAR_RAISING, C_FEW_MENTIONS, C_INVEST_IN_YOURSELF,
    C_MANY_MENTIONS,
};
use accomplishment_tracker::principles::{EventType, LeadershipPrinciples};
use accomplishment_tracker::statistics::{
    collect_leadership_statistic, collect_unique_months_by_year, collect_unique_years, event_in_month,
    latest_month, latest_year, leadership_counts_by_year, monthly_counts_for_principle, principle_labels,
};
use std::collections::HashSet;
use LeadershipPrinciples::{DiveDeep, EarnTrust, Empty, Frugality, Ownership};

fn event(year: i32, month: u32, a: LeadershipPrinciples, b: LeadershipPrinciples) -> Event {
    Event {
        date: CalendarDate { year, month, day: 1 },
        leadership_principles: [a, b],
        event_type: EventType::Unspecified,
        summary: TinyString::default(),
        details: LargeString::default(),
    }
}

fn sample() -> AccomplishmentData {
    AccomplishmentData {
        events: vec![
            event(2021, 3, Ownership, Ownership),
            event(2021, 3, Ownership, DiveDeep),
            event(2021, 12, EarnTrust, Empty),
            event(2020, 3, Ownership, Frugality),
        ],
    }
}

#[test]
fn months_and_years() {
    let data = sample();
    let months = collect_unique_months_by_year(&data, 2021);
    let mut expected = [false; 12];
    expected[2] = true;
    expected[11] = true;
    assert_eq!(months, expected);
    assert_eq!(latest_month(&months), 11);
    assert_eq!(latest_month(&[false; 12]), 0);
    assert_eq!(collect_unique_years(&data), HashSet::from([2020, 2021]));
    assert_eq!(latest_year(&data), Some(2021));
    assert_eq!(latest_year(&AccomplishmentData::default()), None);
    assert!(event_in_month(&data.events[2], 2021, 11));
    assert!(!event_in_month(&data.events[2], 2020, 11));
}

#[test]
fn statistic_counts_each_event_once_per_principle() {
    let data = sample();
    let stats = collect_leadership_statistic(&data, 2021, 2);
    assert_eq!(stats[LeadershipPrinciples::Ownership.to_u32() as usize], 2);
    assert_eq!(stats[LeadershipPrinciples::DiveDeep.to_u32() as usize], 1);
    assert_eq!(stats[LeadershipPrinciples::Frugality.to_u32() as usize], 0);
    assert_eq!(stats.iter().sum::<usize>(), 3);
}

#[test]
fn yearly_counts_count_every_slot() {
    let data = sample();
    let counts = leadership_counts_by_year(&data.events, 2021);
    assert_eq!(counts[0], 3);
    assert_eq!(counts[LeadershipPrinciples::DiveDeep.to_u32() as usize], 1);
    assert_eq!(counts[16], 1);
    assert_eq!(counts.iter().sum::<usize>(), 6);
}

#[test]
fn monthly_counts_by_name() {
    let data = sample();
    let counts = monthly_counts_for_principle(&data.events, "Ownership", 2021);
    assert_eq!(counts[3], 3);
    assert_eq!(counts[12], 0);
    assert_eq!(counts.iter().sum::<usize>(), 3);
    let trust = monthly_counts_for_principle(&data.events, "Earn Trust", 2021);
    assert_eq!(trust[12], 1);
}

#[test]
fn labels_and_colours() {
    let data = sample();
    assert_eq!(principle_labels(&data.events[2]), vec!["Earn Trust"]);
    assert_eq!(principle_labels(&data.events[1]), vec!["Ownership", "Dive Deep"]);
    assert_eq!(summary_cell_color(0), None);
    assert_eq!(summary_cell_color(1), Some(C_FEW_MENTIONS));
    assert_eq!(summary_cell_color(3), Some("#7d5a0c"));
    assert_eq!(summary_cell_color(4), Some(C_MANY_MENTIONS));
    assert_eq!(event_row_color(EventType::BarRaise), Some(C_BAR_RAISING));
    assert_eq!(event_row_color(EventType::InvestInYourSelf), Some(C_INVEST_IN_YOURSELF));
    assert_eq!(event_row_color(EventType::Unspecified), None);
    assert_eq!(month_name(0), "January");
    assert_eq!(month_name(11), "December");
}
