use accomplishment_tracker::binary::{
    deserialize, deserialize_would_panic, header_size, serialize, DeserializeError, EVENT_RECORD_SIZE,
};
use accomplishment_tracker::event::{AccomplishmentData, CalendarDate, Event};
use accomplishment_tracker::fixed_string::{CustomStringTrait, LargeString, TinyString};
use accomplishment_tracker::principles::{EventType, LeadershipPrinciples};

fn sample() -> AccomplishmentData {
    let mut data = AccomplishmentData::default();
    data.events.push(Event {
        date: CalendarDate { year: 2021, month: 3, day: 1 },
        leadership_principles: [LeadershipPrinciples::Ownership; 2],
        summary: TinyString::default().build_write(b"abc"),
        details: LargeString::default().build_write(b"124"),
        event_type: EventType::BarRaise,
    });
    data.events.push(Event {
        date: CalendarDate { year: 2021, month: 4, day: 1 },
        leadership_principles: [LeadershipPrinciples::Ownership; 2],
        summary: TinyString::default().build_write(b"abc"),
        details: LargeString::default().build_write(b"124"),
        event_type: EventType::Unspecified,
    });
    data.events.push(Event {
        date: CalendarDate { year: 2020, month: 3, day: 1 },
        leadership_principles: [LeadershipPrinciples::DisagreeAndCommit; 2],
        summary: TinyString::default().build_write(b"I hate dev!"),
        details: LargeString::default().build_write(b"I will not explain."),
        event_type: EventType::Unspecified,
    });
    data.events.push(Event {
        date: CalendarDate { year: 2020, month: 2, day: 1 },
        leadership_principles: [LeadershipPrinciples::DisagreeAndCommit; 2],
        summary: TinyString::default().build_write(b"I hate dev!"),
        details: LargeString::default().build_write(b"## Description\nI will not explain."),
        event_type: EventType::InvestInYourSelf,
    });
    data
}

#[test]
fn test_binary_serial_deserial() {
    let mut data = sample();
    data.sort();
    let buffer = serialize(&data);
    let result = deserialize(&buffer).unwrap();

    assert_eq!(result.events.len(), data.events.len());
    for i in 0..result.events.len() {
        assert!(
            data.events[i] == result.events[i],
            "{}; {:?} != {:?}",
            i,
            data.events[i],
            result.events[i]
        )
    }
}

const W: usize = std::mem::size_of::<usize>();
const H: usize = 11 + 3 * W;

#[test]
fn serialized_layout() {
    let data = sample();
    let bytes = serialize(&data);
    assert_eq!(header_size(), H);
    assert_eq!(bytes.len(), H + 4 * EVENT_RECORD_SIZE);
    assert_eq!(&bytes[0..3], b"ATS");
    assert_eq!(&bytes[3..7], &0u32.to_le_bytes());
    assert_eq!(&bytes[7..7 + W], &std::mem::size_of::<AccomplishmentData>().to_le_bytes());
    assert_eq!(&bytes[7 + W..11 + W], &0u32.to_le_bytes());
    assert_eq!(&bytes[11 + W..11 + 2 * W], &528usize.to_le_bytes());
    assert_eq!(&bytes[11 + 2 * W..H], &4usize.to_le_bytes());
    let r = &bytes[H..H + 528];
    assert_eq!(&r[0..4], &2021i32.to_le_bytes());
    assert_eq!(&r[4..8], &3u32.to_le_bytes());
    assert_eq!(&r[8..12], &1u32.to_le_bytes());
    assert_eq!(r[12], 0);
    assert_eq!(&r[14..16], &0u16.to_le_bytes());
    assert_eq!(&r[16..20], &3u32.to_le_bytes());
    assert_eq!(&r[20..23], b"abc");
}

#[test]
fn empty_collection_round_trips() {
    let data = AccomplishmentData::default();
    let bytes = serialize(&data);
    assert_eq!(bytes.len(), H);
    assert_eq!(bytes[3], 0);
    assert!(deserialize(&bytes).unwrap().events.is_empty());
}

#[test]
fn bad_serial_code() {
    let mut bytes = serialize(&sample());
    bytes[1] = b'X';
    assert_eq!(
        deserialize(&bytes).err(),
        Some(DeserializeError::BadSerialCode { index: 1, found: b'X', expected: b'T' })
    );
    assert_eq!(
        deserialize(b"B").err(),
        Some(DeserializeError::BadSerialCode { index: 0, found: b'B', expected: b'A' })
    );
}

#[test]
fn short_inputs_are_detected() {
    assert!(deserialize_would_panic(b"AT"));
    assert!(deserialize_would_panic(b"ATS\x00\x00\x00\x00"));
    assert!(!deserialize_would_panic(b"XTS"));
    let bytes = serialize(&sample());
    assert!(deserialize_would_panic(&bytes[..H - 1]));
    assert!(!deserialize_would_panic(&bytes[..H]));
    assert!(!deserialize_would_panic(&bytes));
    let mut huge = bytes[..H].to_vec();
    huge[11 + 2 * W..H].copy_from_slice(&(usize::MAX / 528 + 1).to_le_bytes());
    assert!(deserialize_would_panic(&huge));
}

#[test]
fn header_errors() {
    let bytes = serialize(&sample());

    let mut b = bytes.clone();
    b[3] = 1;
    assert_eq!(deserialize(&b).err(), Some(DeserializeError::UnsupportedDataVersion));

    let mut b = bytes.clone();
    b[7..7 + W].copy_from_slice(&1usize.to_le_bytes());
    assert_eq!(
        deserialize(&b).err(),
        Some(DeserializeError::DataSizeMismatch {
            cursor: 7 + W,
            recorded: 1,
            actual: std::mem::size_of::<AccomplishmentData>()
        })
    );

    let mut b = bytes.clone();
    b[7 + W] = 7;
    assert_eq!(deserialize(&b).err(), Some(DeserializeError::UnsupportedEventVersion));

    let mut b = bytes.clone();
    b[11 + W..11 + 2 * W].copy_from_slice(&100usize.to_le_bytes());
    assert_eq!(
        deserialize(&b).err(),
        Some(DeserializeError::EventSizeMismatch { record_size: 100, expected_record_size: 528 })
    );

    let b = &bytes[..bytes.len() - 1];
    assert_eq!(
        deserialize(b).err(),
        Some(DeserializeError::BufferSizeMismatch { cursor: H, available: 4 * 528 - 1, needed: 4 * 528 })
    );
}

#[test]
fn record_errors() {
    let bytes = serialize(&sample());
    let record = |k: usize| H + 528 * k;

    let mut b = bytes.clone();
    b[record(1) + 13] = 17;
    assert_eq!(deserialize(&b).err(), Some(DeserializeError::InvalidLeadershipPrinciple { index: 1 }));

    let mut b = bytes.clone();
    b[record(3) + 14] = 3;
    b[record(1) + 14] = 9;
    assert_eq!(deserialize(&b).err(), Some(DeserializeError::InvalidEventType { index: 1 }));
}

#[test]
fn any_date_bytes_are_accepted() {
    let bytes = serialize(&sample());
    let mut b = bytes.clone();
    b[H + 528 * 2 + 4..H + 528 * 2 + 8].copy_from_slice(&0u32.to_le_bytes());
    let data = deserialize(&b).unwrap();
    assert_eq!(data.events[2].date, CalendarDate { year: 2020, month: 0, day: 1 });
}
