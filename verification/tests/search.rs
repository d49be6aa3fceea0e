use accomplishment_tracker::event::{CalendarDate, Event};
use accomplishment_tracker::fixed_string::{CustomStringTrait, LargeString, TinyString};
use accomplishment_tracker::principles::{EventType, LeadershipPrinciples};
use accomplishment_tracker::search::{construct_document_token_map, query_document_token_map};
use std::collections::HashSet;

fn event(summary: &str, details: &str) -> Event {
    Event {
        date: CalendarDate { year: 2021, month: 3, day: 1 },
        leadership_principles: [LeadershipPrinciples::Ownership; 2],
        event_type: EventType::Unspecified,
        summary: TinyString::from_str(summary),
        details: LargeString::from_str(details),
    }
}

fn entry<'a>(map: &'a accomplishment_tracker::search::DocumentTokenMap, token: &str) -> Option<&'a Vec<usize>> {
    let t: Vec<char> = token.chars().collect();
    map.entries.iter().find(|e| e.token == t).map(|e| &e.events)
}

#[test]
fn tokens_are_lower_cased_and_split() {
    let events = vec![
        event("<p>Shipped the Release.</p>", "<h3>Details</h3><p>Fixed bugs, wrote tests</p>"),
        event("Wrote docs", "Release notes\tand\nmore"),
    ];
    let map = construct_document_token_map(&events);
    assert_eq!(entry(&map, "release"), Some(&vec![0, 1]));
    assert_eq!(entry(&map, "shipped"), Some(&vec![0]));
    assert_eq!(entry(&map, "details"), Some(&vec![0]));
    assert_eq!(entry(&map, "wrote"), Some(&vec![0, 1]));
    assert_eq!(entry(&map, "bugs"), Some(&vec![0]));
    assert_eq!(entry(&map, "notes"), Some(&vec![1]));
    assert_eq!(entry(&map, "Release"), None);
    assert_eq!(entry(&map, "the"), None);
    assert_eq!(entry(&map, "and"), Some(&vec![1]));
    assert!(entry(&map, "").is_none());
    let mut tokens: Vec<&Vec<char>> = map.entries.iter().map(|e| &e.token).collect();
    let n = tokens.len();
    tokens.dedup();
    assert_eq!(tokens.len(), n);
}

#[test]
fn query_returns_matching_events() {
    let events = vec![
        event("Shipped release", "fixed bugs"),
        event("Mentored interns", "wrote release notes"),
        event("Cut costs", "frugality"),
    ];
    let map = construct_document_token_map(&events);
    assert_eq!(query_document_token_map("release", &map), HashSet::from([0, 1]));
    assert_eq!(query_document_token_map("bugs costs", &map), HashSet::from([0, 2]));
    assert_eq!(query_document_token_map("Release", &map), HashSet::from([0, 1]));
    assert_eq!(query_document_token_map("nothing here", &map), HashSet::new());
    assert_eq!(query_document_token_map("interns interns", &map), HashSet::from([1]));
    assert_eq!(query_document_token_map("the", &map), HashSet::new());
}

#[test]
fn tags_and_punctuation_are_not_words() {
    let events = vec![
        event("I hate dev!", "<a href=\"x\">link</a> (see: notes) x</h2>"),
    ];
    let map = construct_document_token_map(&events);
    assert_eq!(entry(&map, "dev"), Some(&vec![0]));
    assert_eq!(entry(&map, "dev!"), None);
    assert_eq!(entry(&map, "link"), Some(&vec![0]));
    assert_eq!(entry(&map, "href"), None);
    assert_eq!(entry(&map, "see"), Some(&vec![0]));
    assert_eq!(entry(&map, "notes"), Some(&vec![0]));
    assert_eq!(entry(&map, "x"), Some(&vec![0]));
    for e in map.entries.iter() {
        assert!(!e.token.is_empty());
        assert!(e.token.iter().all(|c| !c.is_ascii_punctuation() && !c.is_ascii_whitespace()));
    }
}

#[test]
fn query_words_find_near_words() {
    let events = vec![event("cat", "sat"), event("dogs", "ran"), event("bats", "")];
    let map = construct_document_token_map(&events);
    assert_eq!(query_document_token_map("cats", &map), HashSet::from([0, 2]));
    assert_eq!(query_document_token_map("dog", &map), HashSet::from([1]));
    assert_eq!(query_document_token_map("bird", &map), HashSet::new());
    assert_eq!(query_document_token_map("", &map), HashSet::new());
    assert_eq!(query_document_token_map(" ", &map), HashSet::new());
}

#[test]
fn joined_query_finds_union() {
    let events = vec![event("cat", "sat"), event("dogs", "ran"), event("bird", "flew")];
    let map = construct_document_token_map(&events);
    let a = query_document_token_map("cat", &map);
    let b = query_document_token_map("flew", &map);
    let both = query_document_token_map("cat flew", &map);
    assert_eq!(both, a.union(&b).copied().collect::<HashSet<usize>>());
    assert_eq!(both, HashSet::from([0, 2]));
}

#[test]
fn empty_query_word_finds_one_letter_words() {
    let events = vec![event("x", "plan"), event("", "plans")];
    let map = construct_document_token_map(&events);
    assert_eq!(query_document_token_map("", &map), HashSet::from([0]));
    assert_eq!(query_document_token_map("plan", &map), HashSet::from([0, 1]));
}

#[test]
fn unclosed_angle_bracket_is_punctuation() {
    let events = vec![event("1 < 2 apples", "a<b and <i>c</i>")];
    let map = construct_document_token_map(&events);
    assert_eq!(entry(&map, "apples"), Some(&vec![0]));
    assert_eq!(entry(&map, "2"), Some(&vec![0]));
    assert_eq!(entry(&map, "b"), None);
    assert_eq!(entry(&map, "c"), Some(&vec![0]));
    assert_eq!(entry(&map, "i"), None);
}
