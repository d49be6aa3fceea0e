use accomplishment_tracker::convert::{event_type_of_lowered_tag, old_to_new_event, Report, ReportEvent};
use accomplishment_tracker::event::{TomlDate, TomlDatetime, TomlOffset, TomlTime};
use accomplishment_tracker::principles::{EventType, LeadershipPrinciples};

fn old_event(tags: Option<&str>) -> ReportEvent {
    ReportEvent {
        summary: "This is an example.".to_string(),
        details: Some("Some details".to_string()),
        date: TomlDatetime {
            date: Some(TomlDate { year: 1979, month: 5, day: 27 }),
            time: Some(TomlTime { hour: 7, minute: 32, second: Some(0), nanosecond: None }),
            offset: Some(TomlOffset::Custom { minutes: -480 }),
        },
        customer_obsession: None,
        ownership: Some(1),
        invent_and_simplify: None,
        are_right_alot: None,
        learn_and_be_curious: None,
        hire_and_develop_the_best: None,
        insist_on_the_highest_standards: None,
        think_big: None,
        bias_for_action: None,
        frugality: None,
        earn_trust: Some(1),
        dive_deep: Some(0),
        have_backbone: None,
        deliver_results: None,
        strive_best_employer: Some(1),
        success_and_scale_brings_responsibility: None,
        tags: tags.map(|t| t.to_string()),
    }
}

#[test]
fn principles_follow_fixed_order() {
    let t = old_to_new_event(&old_event(None));
    assert_eq!(
        t.leadership_principles,
        vec![LeadershipPrinciples::Ownership, LeadershipPrinciples::EarnTrust, LeadershipPrinciples::DiveDeep]
    );
    assert_eq!(t.event_type, EventType::Unspecified);
    assert_eq!(t.summary, "This is an example.");
    assert_eq!(t.details, "Some details");
    assert_eq!(t.date, old_event(None).date);
}

#[test]
fn tags_set_the_kind() {
    assert_eq!(old_to_new_event(&old_event(Some("Bar Raiser"))).event_type, EventType::BarRaise);
    assert_eq!(old_to_new_event(&old_event(Some("INVEST IN YOUR SELF"))).event_type, EventType::InvestInYourSelf);
    assert_eq!(old_to_new_event(&old_event(Some("other"))).event_type, EventType::Unspecified);
}

#[test]
fn report_converts_every_event() {
    let report = Report { events: vec![old_event(None), old_event(Some("bar raiser"))] };
    let data = report.to_new_format();
    assert_eq!(data.events.len(), 2);
    assert_eq!(data.events[1].event_type, EventType::BarRaise);
}

#[test]
fn lowered_tags_name_kinds() {
    assert_eq!(event_type_of_lowered_tag("bar raiser"), EventType::BarRaise);
    assert_eq!(event_type_of_lowered_tag("invest in your self"), EventType::InvestInYourSelf);
    assert_eq!(event_type_of_lowered_tag("Bar Raiser"), EventType::Unspecified);
    assert_eq!(event_type_of_lowered_tag(""), EventType::Unspecified);
}
