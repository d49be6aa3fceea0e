use accomplishment_tracker::event::{
    events_from_toml, AccomplishmentData, CalendarDate, Event, TomlAccomplishmentData, TomlDate,
    TomlDatetime, TomlEvent,
};
use accomplishment_tracker::fixed_string::{CustomStringTrait, LargeString, TinyString};
use accomplishment_tracker::principles::{EventType, LeadershipPrinciples};
use pulldown_cmark::{html, Options, Parser};

fn markdown_to_html(input: &str) -> String {
    let mut options = Options::empty();
    options.insert(Options::ENABLE_STRIKETHROUGH);
    let parser = Parser::new_ext(input, options);
    let mut html_output = String::new();
    html::push_html(&mut html_output, parser);
    html_output
}

fn date(year: u16, month: u8, day: u8) -> TomlDatetime {
    TomlDatetime { date: Some(TomlDate { year, month, day }), time: None, offset: None }
}

fn event(year: i32, month: u32, day: u32, summary: &[u8]) -> Event {
    Event {
        date: CalendarDate { year, month, day },
        leadership_principles: [LeadershipPrinciples::Ownership; 2],
        event_type: EventType::Unspecified,
        summary: TinyString::default().build_write(summary),
        details: LargeString::default().build_write(b""),
    }
}

#[test]
fn test_tomlevent_to_event() {
    let te = TomlEvent {
        date: date(2021, 3, 1),
        leadership_principles: vec![LeadershipPrinciples::Ownership; 2],
        summary: "This is a test.".to_string(),
        details: "This is a test and here are some details.".to_string(),
        event_type: EventType::Unspecified,
    };
    let e = Event {
        date: CalendarDate { year: 2021, month: 3, day: 1 },
        leadership_principles: [LeadershipPrinciples::Ownership; 2],
        summary: TinyString::from_str(&markdown_to_html("This is a test.")),
        details: LargeString::from_str(&markdown_to_html("This is a test and here are some details.")),
        event_type: EventType::Unspecified,
    };

    let te_to_e = te.to_event();

    assert!(te_to_e == e, "{:?} {:?}", te_to_e.summary, e.summary)
}

#[test]
fn test_tomlevent_to_event_markdown() {
    let te = TomlEvent {
        date: date(2021, 3, 1),
        leadership_principles: vec![LeadershipPrinciples::Ownership; 2],
        summary: "This is a test.".to_string(),
        details: "## Description\nThis is a test and here are some details.".to_string(),
        event_type: EventType::Unspecified,
    };
    let e = Event {
        date: CalendarDate { year: 2021, month: 3, day: 1 },
        leadership_principles: [LeadershipPrinciples::Ownership; 2],
        summary: TinyString::from_str(&markdown_to_html("This is a test.")),
        details: LargeString::from_str(&markdown_to_html("## Description\nThis is a test and here are some details.")),
        event_type: EventType::Unspecified,
    };

    let te_to_e = te.to_event();

    assert!(te_to_e == e, "{:?} {:?}", te_to_e.summary, e.summary)
}

#[test]
fn to_event_renders_markdown_and_fills_slots() {
    let te = TomlEvent {
        date: date(2020, 2, 29),
        leadership_principles: vec![LeadershipPrinciples::DiveDeep],
        summary: "*bold move*".to_string(),
        details: "".to_string(),
        event_type: EventType::BarRaise,
    };
    assert!(te.has_valid_date_exec());
    let e = te.to_event();
    assert_eq!(e.date, CalendarDate { year: 2020, month: 2, day: 29 });
    assert_eq!(e.leadership_principles, [LeadershipPrinciples::DiveDeep, LeadershipPrinciples::Empty]);
    assert_eq!(e.event_type, EventType::BarRaise);
    assert_eq!(e.summary.as_str(), "<p><em>bold move</em></p>\n");
    assert_eq!(e.details.as_str(), "");
}

#[test]
fn to_event_keeps_first_two_principles() {
    let te = TomlEvent {
        date: date(2022, 12, 31),
        leadership_principles: vec![
            LeadershipPrinciples::ThinkBig,
            LeadershipPrinciples::Frugality,
            LeadershipPrinciples::EarnTrust,
        ],
        summary: "a".to_string(),
        details: "b".to_string(),
        event_type: EventType::Unspecified,
    };
    let e = te.to_event();
    assert_eq!(e.leadership_principles, [LeadershipPrinciples::ThinkBig, LeadershipPrinciples::Frugality]);
}

#[test]
fn calendar_dates() {
    assert!(CalendarDate { year: 2024, month: 2, day: 29 }.is_valid());
    assert!(!CalendarDate { year: 2023, month: 2, day: 29 }.is_valid());
    assert!(!CalendarDate { year: 1900, month: 2, day: 29 }.is_valid());
    assert!(CalendarDate { year: 2000, month: 2, day: 29 }.is_valid());
    assert!(!CalendarDate { year: 2023, month: 4, day: 31 }.is_valid());
    assert!(!CalendarDate { year: 2023, month: 13, day: 1 }.is_valid());
    assert!(!CalendarDate { year: 2023, month: 0, day: 1 }.is_valid());
    assert!(!CalendarDate { year: 2023, month: 1, day: 0 }.is_valid());
    assert!(CalendarDate { year: -4, month: 2, day: 29 }.is_valid());
    assert!(!CalendarDate { year: 400000, month: 1, day: 1 }.is_valid());
    let d = CalendarDate { year: 2021, month: 3, day: 1 };
    assert_eq!(d.month0(), 2);
    assert_eq!(d.month(), 3);
    assert_eq!(d.year(), 2021);
    assert_eq!(d.day(), 1);
    let te = TomlEvent {
        date: TomlDatetime { date: None, time: None, offset: None },
        leadership_principles: vec![],
        summary: String::new(),
        details: String::new(),
        event_type: EventType::Unspecified,
    };
    assert!(!te.has_valid_date_exec());
}

#[test]
fn sort_orders_by_date_and_keeps_ties_in_order() {
    let mut data = AccomplishmentData::default();
    data.events.push(event(2021, 3, 1, b"a"));
    data.events.push(event(2020, 3, 1, b"b"));
    data.events.push(event(2021, 3, 1, b"c"));
    data.events.push(event(2020, 2, 1, b"d"));
    data.events.push(event(2020, 3, 1, b"e"));
    data.sort();
    let summaries: Vec<&str> = data.events.iter().map(|e| e.summary.as_str()).collect();
    assert_eq!(summaries, vec!["d", "b", "e", "a", "c"]);
}

#[test]
fn events_from_toml_converts_and_sorts() {
    let report = TomlAccomplishmentData {
        events: vec![
            TomlEvent {
                date: date(2021, 3, 1),
                leadership_principles: vec![LeadershipPrinciples::Ownership],
                summary: "This is a test.".to_string(),
                details: "\n## Description\nThis is a test and here are some details.".to_string(),
                event_type: EventType::Unspecified,
            },
            TomlEvent {
                date: date(2020, 1, 5),
                leadership_principles: vec![],
                summary: "Earlier".to_string(),
                details: "x".to_string(),
                event_type: EventType::InvestInYourSelf,
            },
        ],
    };
    let data = events_from_toml(&report);
    assert_eq!(data.events.len(), 2);
    assert_eq!(data.events[0].date, CalendarDate { year: 2020, month: 1, day: 5 });
    assert_eq!(data.events[1].date, CalendarDate { year: 2021, month: 3, day: 1 });
    assert_eq!(data.events[1].details.as_str(), "<h2>Description</h2>\n<p>This is a test and here are some details.</p>\n");
    let empty = TomlAccomplishmentData { events: vec![] }.to_accomplishmentdata();
    assert!(empty.events.is_empty());
}

#[test]
fn default_event() {
    let e = Event::default();
    assert_eq!(e.date, CalendarDate { year: 1970, month: 1, day: 1 });
    assert_eq!(e.leadership_principles, [LeadershipPrinciples::Empty; 2]);
    assert_eq!(e.event_type, EventType::Unspecified);
}

#[test]
fn test_toml_to_serial() {
    let report = TomlAccomplishmentData {
        events: vec![TomlEvent {
            date: date(2021, 3, 1),
            leadership_principles: vec![LeadershipPrinciples::Ownership],
            summary: "This is a test.".to_string(),
            details: "\n## Description\nThis is a test and here are some details.".to_string(),
            event_type: EventType::Unspecified,
        }],
    };
    let data = events_from_toml(&report);
    let bytes = accomplishment_tracker::binary::serialize(&data);
    assert_eq!(bytes.len(), accomplishment_tracker::binary::header_size() + 528);
}
