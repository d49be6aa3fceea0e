use accomplishment_tracker::principles::{EventType, LeadershipPrinciples};

#[test]
fn names_read_back_as_principles() {
    for p in LeadershipPrinciples::iterator() {
        assert_eq!(LeadershipPrinciples::from_str(p.to_str()), p);
    }
    assert_eq!(LeadershipPrinciples::from_str("Dive Deep"), LeadershipPrinciples::DiveDeep);
    assert_eq!(LeadershipPrinciples::from_str("dive deep"), LeadershipPrinciples::Empty);
    assert_eq!(LeadershipPrinciples::from_str("NA - Empty"), LeadershipPrinciples::Empty);
}

#[test]
fn order_matches_positions() {
    let all = LeadershipPrinciples::iterator();
    assert_eq!(all.len(), 17);
    for (i, p) in all.iter().enumerate() {
        assert_eq!(p.to_u32() as usize, i);
        assert_eq!(LeadershipPrinciples::from_u32(i as u32), Some(*p));
    }
    assert_eq!(LeadershipPrinciples::from_u32(17), None);
    assert_eq!(LeadershipPrinciples::Ownership.to_str(), "Ownership");
    assert_eq!(LeadershipPrinciples::AreRightALot.to_str(), "Are right alot");
    assert_eq!(LeadershipPrinciples::Empty.to_u32(), 16);
}

#[test]
fn defaults() {
    assert_eq!(LeadershipPrinciples::default(), LeadershipPrinciples::Empty);
    assert_eq!(EventType::default(), EventType::Unspecified);
}

#[test]
fn event_type_codes() {
    assert_eq!(EventType::BarRaise.to_u16(), 0);
    assert_eq!(EventType::InvestInYourSelf.to_u16(), 1);
    assert_eq!(EventType::Unspecified.to_u16(), 2);
    assert_eq!(EventType::from_u16(1), Some(EventType::InvestInYourSelf));
    assert_eq!(EventType::from_u16(3), None);
}
