//! The binary file format of a collection of events.
//!
//! A file holds, in order: the three-byte tag `ATS`; the collection format
//! version as a little-endian `u32`; the in-memory size of the collection
//! value as a little-endian `usize`; the event format version (`u32`); the
//! size of one event record (`usize`); the number of records (`usize`); then
//! the records, one after the other.
//!
//! A record is laid out as the event is in memory, little-endian: the date
//! (12 bytes), the two principle positions (one byte each), the event kind
//! (`u16`), the summary length (`u32`) and its 104-byte buffer, then the
//! details length (`u32`) and its 400-byte buffer.  The date is written as
//! its year (`i32`), month and day (`u32` each); those 12 bytes are the
//! place of the date in the event.

use vstd::prelude::*;
use crate::event::{AccomplishmentData, CalendarDate, Event};
use crate::fixed_string::{LargeString, TinyString};
use crate::principles::{EventType, LeadershipPrinciples, all_principles};

verus! {

broadcast use vstd::layout::layout_of_primitives;

/// Size of one event record in bytes.
pub const EVENT_RECORD_SIZE: usize = 528;

/// Version of the collection format.
pub const DATA_VERSION: u32 = 0;

/// Version of the event format.
pub const EVENT_VERSION: u32 = 0;

/// The tag a file starts with: `ATS`.
pub open spec fn serial_code() -> Seq<u8> {
    seq![65u8, 84u8, 83u8]
}

fn serial_code_byte(i: usize) -> (b: u8)
    requires
        i < 3,
    ensures
        b == serial_code()[i as int],
{
    if i == 0 {
        65
    } else if i == 1 {
        84
    } else {
        83
    }
}

/// The in-memory size of a collection value on this platform.
pub open spec fn data_size() -> usize {
    vstd::layout::size_of_as_usize::<AccomplishmentData>()
}

/// The number of bytes of a `usize` on this platform.
pub open spec fn word_size() -> int {
    if usize::BITS == 64 {
        8
    } else {
        4
    }
}

/// Where the collection size field starts.
pub open spec fn data_size_at() -> int {
    7
}

/// Where the event format version starts.
pub open spec fn event_version_at() -> int {
    7 + word_size()
}

/// Where the record size field starts.
pub open spec fn record_size_at() -> int {
    11 + word_size()
}

/// Where the number of records starts.
pub open spec fn count_at() -> int {
    11 + 2 * word_size()
}

/// Size of the header in bytes: where the first record starts.
pub open spec fn header_len() -> int {
    11 + 3 * word_size()
}

/// The header size on this platform.
pub fn header_size() -> (h: usize)
    ensures
        h == header_len(),
{
    if usize::BITS == 64 {
        35
    } else {
        23
    }
}

// ---------------------------------------------------------------------------
// Little-endian integers
// ---------------------------------------------------------------------------

pub open spec fn u32_le(x: u32) -> Seq<u8> {
    seq![
        (x & 0xff) as u8,
        ((x >> 8u32) & 0xff) as u8,
        ((x >> 16u32) & 0xff) as u8,
        ((x >> 24u32) & 0xff) as u8,
    ]
}

pub open spec fn u16_le(x: u16) -> Seq<u8> {
    seq![(x & 0xff) as u16 as u8, ((x >> 8u16) & 0xff) as u16 as u8]
}

pub open spec fn read_u32(b: Seq<u8>, at: int) -> u32 {
    (b[at] as u32) | ((b[at + 1] as u32) << 8u32) | ((b[at + 2] as u32) << 16u32) | ((
    b[at + 3] as u32) << 24u32)
}

pub open spec fn read_u16(b: Seq<u8>, at: int) -> u16 {
    (b[at] as u16) | ((b[at + 1] as u16) << 8u16)
}

proof fn lemma_u32_round_trip(x: u32)
    ensures
        read_u32(u32_le(x), 0) == x,
{
    let b0 = (x & 0xff) as u8;
    let b1 = ((x >> 8u32) & 0xff) as u8;
    let b2 = ((x >> 16u32) & 0xff) as u8;
    let b3 = ((x >> 24u32) & 0xff) as u8;
    assert((b0 as u32) | ((b1 as u32) << 8u32) | ((b2 as u32) << 16u32) | ((b3 as u32) << 24u32)
        == x) by (bit_vector)
        requires
            b0 == (x & 0xff) as u8,
            b1 == ((x >> 8u32) & 0xff) as u8,
            b2 == ((x >> 16u32) & 0xff) as u8,
            b3 == ((x >> 24u32) & 0xff) as u8,
    ;
}

proof fn lemma_u16_round_trip(x: u16)
    ensures
        read_u16(u16_le(x), 0) == x,
{
    let b0 = (x & 0xff) as u16 as u8;
    let b1 = ((x >> 8u16) & 0xff) as u16 as u8;
    assert((b0 as u16) | ((b1 as u16) << 8u16) == x) by (bit_vector)
        requires
            b0 == (x & 0xff) as u16 as u8,
            b1 == ((x >> 8u16) & 0xff) as u16 as u8,
    ;
}

proof fn lemma_i32_round_trip(y: i32)
    ensures
        (y as u32) as i32 == y,
{
    assert((y as u32) as i32 == y) by (bit_vector);
}

fn push_u32_le(out: &mut Vec<u8>, x: u32)
    ensures
        final(out)@ == old(out)@ + u32_le(x),
{
    out.push((x & 0xff) as u8);
    out.push(((x >> 8u32) & 0xff) as u8);
    out.push(((x >> 16u32) & 0xff) as u8);
    out.push(((x >> 24u32) & 0xff) as u8);
    assert(out@ =~= old(out)@ + u32_le(x));
}

fn push_u16_le(out: &mut Vec<u8>, x: u16)
    ensures
        final(out)@ == old(out)@ + u16_le(x),
{
    out.push((x & 0xff) as u8);
    out.push(((x >> 8u16) & 0xff) as u8);
    assert(out@ =~= old(out)@ + u16_le(x));
}

fn push_bytes(out: &mut Vec<u8>, bytes: &[u8])
    ensures
        final(out)@ == old(out)@ + bytes@,
{
    let n = bytes.len();
    for i in 0..n
        invariant
            n == bytes@.len(),
            out@ == old(out)@ + bytes@.take(i as int),
    {
        out.push(bytes[i]);
        assert(out@ =~= old(out)@ + bytes@.take(i + 1));
    }
    assert(bytes@.take(n as int) =~= bytes@);
}

fn read_u32_le(b: &[u8], at: usize) -> (x: u32)
    requires
        at + 4 <= b@.len(),
    ensures
        x == read_u32(b@, at as int),
{
    (b[at] as u32) | ((b[at + 1] as u32) << 8u32) | ((b[at + 2] as u32) << 16u32) | ((b[at
        + 3] as u32) << 24u32)
}

fn read_u16_le(b: &[u8], at: usize) -> (x: u16)
    requires
        at + 2 <= b@.len(),
    ensures
        x == read_u16(b@, at as int),
{
    (b[at] as u16) | ((b[at + 1] as u16) << 8u16)
}

pub open spec fn u64_le(x: u64) -> Seq<u8> {
    seq![
        (x & 0xff) as u8,
        ((x >> 8u64) & 0xff) as u8,
        ((x >> 16u64) & 0xff) as u8,
        ((x >> 24u64) & 0xff) as u8,
        ((x >> 32u64) & 0xff) as u8,
        ((x >> 40u64) & 0xff) as u8,
        ((x >> 48u64) & 0xff) as u8,
        ((x >> 56u64) & 0xff) as u8,
    ]
}

pub open spec fn read_u64(b: Seq<u8>, at: int) -> u64 {
    (b[at] as u64) | ((b[at + 1] as u64) << 8u64) | ((b[at + 2] as u64) << 16u64) | ((b[at
        + 3] as u64) << 24u64) | ((b[at + 4] as u64) << 32u64) | ((b[at + 5] as u64) << 40u64)
        | ((b[at + 6] as u64) << 48u64) | ((b[at + 7] as u64) << 56u64)
}

/// A `usize` in little-endian order, in as many bytes as it has here.
pub open spec fn usize_le(x: usize) -> Seq<u8> {
    if usize::BITS == 64 {
        u64_le(x as u64)
    } else {
        u32_le(x as u32)
    }
}

pub open spec fn read_usize(b: Seq<u8>, at: int) -> usize {
    if usize::BITS == 64 {
        read_u64(b, at) as usize
    } else {
        read_u32(b, at) as usize
    }
}

proof fn lemma_u64_round_trip(x: u64)
    ensures
        read_u64(u64_le(x), 0) == x,
{
    let b0 = (x & 0xff) as u8;
    let b1 = ((x >> 8u64) & 0xff) as u8;
    let b2 = ((x >> 16u64) & 0xff) as u8;
    let b3 = ((x >> 24u64) & 0xff) as u8;
    let b4 = ((x >> 32u64) & 0xff) as u8;
    let b5 = ((x >> 40u64) & 0xff) as u8;
    let b6 = ((x >> 48u64) & 0xff) as u8;
    let b7 = ((x >> 56u64) & 0xff) as u8;
    assert((b0 as u64) | ((b1 as u64) << 8u64) | ((b2 as u64) << 16u64) | ((b3 as u64) << 24u64)
        | ((b4 as u64) << 32u64) | ((b5 as u64) << 40u64) | ((b6 as u64) << 48u64) | ((
    b7 as u64) << 56u64) == x) by (bit_vector)
        requires
            b0 == (x & 0xff) as u8,
            b1 == ((x >> 8u64) & 0xff) as u8,
            b2 == ((x >> 16u64) & 0xff) as u8,
            b3 == ((x >> 24u64) & 0xff) as u8,
            b4 == ((x >> 32u64) & 0xff) as u8,
            b5 == ((x >> 40u64) & 0xff) as u8,
            b6 == ((x >> 48u64) & 0xff) as u8,
            b7 == ((x >> 56u64) & 0xff) as u8,
    ;
}

fn push_u64_le(out: &mut Vec<u8>, x: u64)
    ensures
        final(out)@ == old(out)@ + u64_le(x),
{
    out.push((x & 0xff) as u8);
    out.push(((x >> 8u64) & 0xff) as u8);
    out.push(((x >> 16u64) & 0xff) as u8);
    out.push(((x >> 24u64) & 0xff) as u8);
    out.push(((x >> 32u64) & 0xff) as u8);
    out.push(((x >> 40u64) & 0xff) as u8);
    out.push(((x >> 48u64) & 0xff) as u8);
    out.push(((x >> 56u64) & 0xff) as u8);
    assert(out@ =~= old(out)@ + u64_le(x));
}

fn push_usize_le(out: &mut Vec<u8>, x: usize)
    ensures
        final(out)@ == old(out)@ + usize_le(x),
{
    if usize::BITS == 64 {
        push_u64_le(out, x as u64);
    } else {
        push_u32_le(out, x as u32);
    }
}

fn read_u64_le(b: &[u8], at: usize) -> (x: u64)
    requires
        at + 8 <= b@.len(),
    ensures
        x == read_u64(b@, at as int),
{
    (b[at] as u64) | ((b[at + 1] as u64) << 8u64) | ((b[at + 2] as u64) << 16u64) | ((b[at
        + 3] as u64) << 24u64) | ((b[at + 4] as u64) << 32u64) | ((b[at + 5] as u64) << 40u64)
        | ((b[at + 6] as u64) << 48u64) | ((b[at + 7] as u64) << 56u64)
}

fn read_usize_le(b: &[u8], at: usize) -> (x: usize)
    requires
        at + word_size() <= b@.len(),
    ensures
        x == read_usize(b@, at as int),
{
    if usize::BITS == 64 {
        read_u64_le(b, at) as usize
    } else {
        read_u32_le(b, at) as usize
    }
}

// ---------------------------------------------------------------------------
// Encoding
// ---------------------------------------------------------------------------

/// The header of a file with `n` records.
pub open spec fn header(n: usize) -> Seq<u8> {
    serial_code() + u32_le(DATA_VERSION) + usize_le(data_size()) + u32_le(EVENT_VERSION) + usize_le(
        EVENT_RECORD_SIZE,
    ) + usize_le(n)
}

/// The record of one event.
pub open spec fn encode_record(e: Event) -> Seq<u8> {
    u32_le(e.date.year as u32) + u32_le(e.date.month) + u32_le(e.date.day) + seq![
        e.leadership_principles@[0].index() as u8,
        e.leadership_principles@[1].index() as u8,
    ] + u16_le(e.event_type.code() as u16) + u32_le(e.summary.length) + e.summary.buffer@
        + u32_le(e.details.length) + e.details.buffer@
}

/// The records of a sequence of events, one after the other.
pub open spec fn encode_records(events: Seq<Event>) -> Seq<u8>
    decreases events.len(),
{
    if events.len() == 0 {
        Seq::empty()
    } else {
        encode_records(events.drop_last()) + encode_record(events.last())
    }
}

/// The file holding `events`.
pub open spec fn serialized(events: Seq<Event>) -> Seq<u8> {
    header(events.len() as usize) + encode_records(events)
}

fn push_record(out: &mut Vec<u8>, e: &Event)
    ensures
        final(out)@ == old(out)@ + encode_record(*e),
{
    push_u32_le(out, e.date.year as u32);
    push_u32_le(out, e.date.month);
    push_u32_le(out, e.date.day);
    out.push(e.leadership_principles[0].to_u32() as u8);
    out.push(e.leadership_principles[1].to_u32() as u8);
    push_u16_le(out, e.event_type.to_u16());
    push_u32_le(out, e.summary.length);
    push_bytes(out, e.summary.buffer.as_slice());
    push_u32_le(out, e.details.length);
    push_bytes(out, e.details.buffer.as_slice());
    assert(out@ =~= old(out)@ + encode_record(*e));
}

/// The file holding the events of `data`, in their order.
pub fn serialize(data: &AccomplishmentData) -> (out: Vec<u8>)
    ensures
        out@ == serialized(data.events@),
{
    let mut out: Vec<u8> = Vec::new();
    out.push(65);
    out.push(84);
    out.push(83);
    push_u32_le(&mut out, DATA_VERSION);
    push_usize_le(&mut out, core::mem::size_of::<AccomplishmentData>());
    push_u32_le(&mut out, EVENT_VERSION);
    push_usize_le(&mut out, EVENT_RECORD_SIZE);
    push_usize_le(&mut out, data.events.len());
    assert(out@ =~= header(data.events@.len() as usize));
    let n = data.events.len();
    for i in 0..n
        invariant
            n == data.events@.len(),
            out@ == header(n) + encode_records(data.events@.take(i as int)),
    {
        push_record(&mut out, &data.events[i]);
        assert(data.events@.take(i + 1).drop_last() =~= data.events@.take(i as int));
        assert(out@ =~= header(n) + encode_records(data.events@.take(i + 1)));
    }
    assert(data.events@.take(n as int) =~= data.events@);
    out
}

// ---------------------------------------------------------------------------
// Decoding
// ---------------------------------------------------------------------------

/// Why a file could not be read.
#[derive(PartialEq, Eq, Structural, Debug, Clone, Copy)]
pub enum DeserializeError {
    /// Byte `index` of the tag is `found` instead of `expected`.
    BadSerialCode { index: usize, found: u8, expected: u8 },
    /// The collection format version is not [`DATA_VERSION`].
    UnsupportedDataVersion,
    /// The recorded size of the collection value is not this platform's.
    DataSizeMismatch { cursor: usize, recorded: usize, actual: usize },
    /// The event format version is not [`EVENT_VERSION`].
    UnsupportedEventVersion,
    /// The record size is not [`EVENT_RECORD_SIZE`].
    EventSizeMismatch { record_size: usize, expected_record_size: usize },
    /// The bytes after the header are not as many as the records need.
    BufferSizeMismatch { cursor: usize, available: usize, needed: usize },
    /// Record `index` holds a principle position out of range.
    InvalidLeadershipPrinciple { index: usize },
    /// Record `index` holds an unknown event kind.
    InvalidEventType { index: usize },
}

/// The bytes of record `k`.
pub open spec fn record_at(b: Seq<u8>, k: int) -> Seq<u8> {
    b.subrange(header_len() + 528 * k, header_len() + 528 * (k + 1))
}

/// What is wrong with record `r` (number `index`), if anything: its
/// principles, then its kind are checked.  Any date bytes are accepted.
pub open spec fn record_error(r: Seq<u8>, index: usize) -> Option<DeserializeError> {
    if r[12] >= 17 || r[13] >= 17 {
        Some(DeserializeError::InvalidLeadershipPrinciple { index })
    } else if read_u16(r, 14) > 2 {
        Some(DeserializeError::InvalidEventType { index })
    } else {
        None
    }
}

/// `e` is the event that the record `r` holds.
pub open spec fn record_decodes_to(r: Seq<u8>, e: Event) -> bool {
    &&& e.date == (CalendarDate {
        year: read_u32(r, 0) as i32,
        month: read_u32(r, 4),
        day: read_u32(r, 8),
    })
    &&& e.leadership_principles@[0] == all_principles()[r[12] as int]
    &&& e.leadership_principles@[1] == all_principles()[r[13] as int]
    &&& e.event_type.code() == read_u16(r, 14)
    &&& e.summary.length == read_u32(r, 16)
    &&& e.summary.buffer@ == r.subrange(20, 124)
    &&& e.details.length == read_u32(r, 124)
    &&& e.details.buffer@ == r.subrange(128, 528)
}

/// The first error among the first `n` records, if any.
pub open spec fn records_error(b: Seq<u8>, n: nat) -> Option<DeserializeError>
    decreases n,
{
    if n == 0 {
        None
    } else {
        match records_error(b, (n - 1) as nat) {
            Some(e) => Some(e),
            None => record_error(record_at(b, n - 1), (n - 1) as usize),
        }
    }
}

/// The position of the first byte of the tag that differs, if any among
/// the bytes present.
pub open spec fn first_code_mismatch(b: Seq<u8>) -> Option<int> {
    if b.len() > 0 && b[0] != serial_code()[0] {
        Some(0)
    } else if b.len() > 1 && b[1] != serial_code()[1] {
        Some(1)
    } else if b.len() > 2 && b[2] != serial_code()[2] {
        Some(2)
    } else {
        None
    }
}

/// The collection part of the header is accepted.
pub open spec fn data_header_ok(b: Seq<u8>) -> bool {
    &&& read_u32(b, 3) == DATA_VERSION
    &&& read_usize(b, data_size_at()) == data_size()
}

/// The event part of the header is accepted.
pub open spec fn event_header_ok(b: Seq<u8>) -> bool {
    &&& read_u32(b, event_version_at()) == EVENT_VERSION
    &&& read_usize(b, record_size_at()) == EVENT_RECORD_SIZE
}

/// The inputs on which reading runs past the end of a short header, or on
/// which the expected record bytes overflow a `usize`.
pub open spec fn deserialize_panics(b: Seq<u8>) -> bool {
    ||| (b.len() < 3 && first_code_mismatch(b) is None)
    ||| (b.len() >= 3 && first_code_mismatch(b) is None && b.len() < event_version_at())
    ||| (b.len() >= event_version_at() && first_code_mismatch(b) is None && data_header_ok(b)
        && b.len() < header_len())
    ||| (b.len() >= header_len() && first_code_mismatch(b) is None && data_header_ok(b)
        && event_header_ok(b) && read_usize(b, count_at()) as int * 528 > usize::MAX)
}

/// The outcome of reading the file `b`: the number of events, or the first
/// problem found.
pub open spec fn deserialize_outcome(b: Seq<u8>) -> Result<nat, DeserializeError> {
    match first_code_mismatch(b) {
        Some(k) => Err(
            DeserializeError::BadSerialCode {
                index: k as usize,
                found: b[k],
                expected: serial_code()[k],
            },
        ),
        None => if read_u32(b, 3) != DATA_VERSION {
            Err(DeserializeError::UnsupportedDataVersion)
        } else if read_usize(b, data_size_at()) != data_size() {
            Err(
                DeserializeError::DataSizeMismatch {
                    cursor: event_version_at() as usize,
                    recorded: read_usize(b, data_size_at()),
                    actual: data_size(),
                },
            )
        } else if read_u32(b, event_version_at()) != EVENT_VERSION {
            Err(DeserializeError::UnsupportedEventVersion)
        } else if read_usize(b, record_size_at()) != EVENT_RECORD_SIZE {
            Err(
                DeserializeError::EventSizeMismatch {
                    record_size: read_usize(b, record_size_at()),
                    expected_record_size: EVENT_RECORD_SIZE,
                },
            )
        } else if b.len() - header_len() != read_usize(b, count_at()) * 528 {
            Err(
                DeserializeError::BufferSizeMismatch {
                    cursor: header_len() as usize,
                    available: (b.len() - header_len()) as usize,
                    needed: (read_usize(b, count_at()) * 528) as usize,
                },
            )
        } else {
            match records_error(b, read_usize(b, count_at()) as nat) {
                Some(e) => Err(e),
                None => Ok(read_usize(b, count_at()) as nat),
            }
        },
    }
}

/// `events` are the events that the first `events.len()` records of `b` hold.
pub open spec fn decodes_to(b: Seq<u8>, events: Seq<Event>) -> bool {
    forall|k: int| 0 <= k < events.len() ==> record_decodes_to(record_at(b, k), #[trigger] events[k])
}

/// Whether [`deserialize`] would run past a short header or overflow the
/// record size computation on `io`.
pub fn deserialize_would_panic(io: &[u8]) -> (p: bool)
    ensures
        p == deserialize_panics(io@),
{
    let n = io.len();
    let mut i: usize = 0;
    while i < 3
        invariant
            n == io@.len(),
            i <= 3,
            forall|k: int| 0 <= k < i && k < n ==> io@[k] == serial_code()[k],
        decreases 3 - i,
    {
        if i >= n {
            return true;
        }
        if io[i] != serial_code_byte(i) {
            return false;
        }
        i = i + 1;
    }
    let h = header_size();
    let w: usize = if usize::BITS == 64 {
        8
    } else {
        4
    };
    if n < 7 + w {
        return true;
    }
    let data_version = read_u32_le(io, 3);
    let data_size_found = read_usize_le(io, 7);
    if data_version != DATA_VERSION || data_size_found != core::mem::size_of::<AccomplishmentData>() {
        return false;
    }
    if n < h {
        return true;
    }
    let event_version = read_u32_le(io, 7 + w);
    let event_size = read_usize_le(io, 11 + w);
    let events_len = read_usize_le(io, 11 + 2 * w);
    event_version == EVENT_VERSION && event_size == EVENT_RECORD_SIZE && events_len > usize::MAX / 528
}

fn copy_array_104(b: &[u8], at: usize) -> (a: [u8; 104])
    requires
        at + 104 <= b@.len(),
    ensures
        a@ == b@.subrange(at as int, at + 104),
{
    let len = b.len();
    let mut a = [0u8; 104];
    for i in 0..104
        invariant
            len == b@.len(),
            at + 104 <= b@.len(),
            a@.len() == 104,
            forall|k: int| 0 <= k < i ==> a@[k] == b@[at + k],
    {
        a[i] = b[at + i];
    }
    assert(a@ =~= b@.subrange(at as int, at + 104));
    a
}

fn copy_array_400(b: &[u8], at: usize) -> (a: [u8; 400])
    requires
        at + 400 <= b@.len(),
    ensures
        a@ == b@.subrange(at as int, at + 400),
{
    let len = b.len();
    let mut a = [0u8; 400];
    for i in 0..400
        invariant
            len == b@.len(),
            at + 400 <= b@.len(),
            a@.len() == 400,
            forall|k: int| 0 <= k < i ==> a@[k] == b@[at + k],
    {
        a[i] = b[at + i];
    }
    assert(a@ =~= b@.subrange(at as int, at + 400));
    a
}

/// Reads record `index`, which starts at byte `at`.
fn decode_record(io: &[u8], at: usize, index: usize) -> (r: Result<Event, DeserializeError>)
    requires
        at + 528 <= io@.len(),
    ensures
        match r {
            Ok(e) => record_error(io@.subrange(at as int, at + 528), index) is None
                && record_decodes_to(io@.subrange(at as int, at + 528), e),
            Err(err) => record_error(io@.subrange(at as int, at + 528), index) == Some(err),
        },
{
    let len = io.len();
    let ghost r = io@.subrange(at as int, at + 528);
    let year = #[verifier::truncate] (read_u32_le(io, at) as i32);
    let month = read_u32_le(io, at + 4);
    let day = read_u32_le(io, at + 8);
    let date = CalendarDate { year, month, day };
    proof {
        assert(read_u32(r, 0) == read_u32(io@, at as int));
        assert(read_u32(r, 4) == read_u32(io@, at + 4));
        assert(read_u32(r, 8) == read_u32(io@, at + 8));
        assert(read_u16(r, 14) == read_u16(io@, at + 14));
        assert(read_u32(r, 16) == read_u32(io@, at + 16));
        assert(read_u32(r, 124) == read_u32(io@, at + 124));
    }
    let lp0 = LeadershipPrinciples::from_u32(io[at + 12] as u32);
    let lp1 = LeadershipPrinciples::from_u32(io[at + 13] as u32);
    let (lp0, lp1) = match (lp0, lp1) {
        (Some(a), Some(b)) => (a, b),
        _ => {
            return Err(DeserializeError::InvalidLeadershipPrinciple { index });
        },
    };
    let event_type = match EventType::from_u16(read_u16_le(io, at + 14)) {
        Some(t) => t,
        None => {
            return Err(DeserializeError::InvalidEventType { index });
        },
    };
    let summary = TinyString { length: read_u32_le(io, at + 16), buffer: copy_array_104(io, at + 20) };
    let details = LargeString {
        length: read_u32_le(io, at + 124),
        buffer: copy_array_400(io, at + 128),
    };
    let e = Event { date, leadership_principles: [lp0, lp1], event_type, summary, details };
    proof {
        assert(e.summary.buffer@ =~= r.subrange(20, 124));
        assert(e.details.buffer@ =~= r.subrange(128, 528));
    }
    Ok(e)
}

/// Reads a file written by [`serialize`]: the header is checked field by
/// field, then every record is read.  Records are accepted whatever their
/// date bytes hold; a principle position or an event kind that names
/// nothing is reported.
pub fn deserialize(io: &[u8]) -> (r: Result<AccomplishmentData, DeserializeError>)
    requires
        !deserialize_panics(io@),
    ensures
        match r {
            Ok(data) => deserialize_outcome(io@) == Ok::<nat, DeserializeError>(
                data.events@.len(),
            ) && decodes_to(io@, data.events@),
            Err(e) => deserialize_outcome(io@) == Err::<nat, DeserializeError>(e),
        },
{
    let w: usize = if usize::BITS == 64 {
        8
    } else {
        4
    };
    let mut cursor: usize = 0;
    for i in 0..3
        invariant
            !deserialize_panics(io@),
            cursor == i,
            forall|k: int| 0 <= k < i ==> io@[k] == serial_code()[k],
    {
        if io[i] != serial_code_byte(i) {
            return Err(
                DeserializeError::BadSerialCode {
                    index: i,
                    found: io[i],
                    expected: serial_code_byte(i),
                },
            );
        }
        cursor = cursor + 1;
    }
    assert(first_code_mismatch(io@) is None);
    let data_version = read_u32_le(io, cursor);
    cursor = cursor + 4;
    let data_size_found = read_usize_le(io, cursor);
    cursor = cursor + w;
    if data_version != DATA_VERSION {
        return Err(DeserializeError::UnsupportedDataVersion);
    } else {
        if data_size_found != core::mem::size_of::<AccomplishmentData>() {
            return Err(
                DeserializeError::DataSizeMismatch {
                    cursor,
                    recorded: data_size_found,
                    actual: core::mem::size_of::<AccomplishmentData>(),
                },
            );
        }
    }
    let event_version = read_u32_le(io, cursor);
    cursor = cursor + 4;
    let event_size = read_usize_le(io, cursor);
    cursor = cursor + w;
    let events_len = read_usize_le(io, cursor);
    cursor = cursor + w;
    if event_version != EVENT_VERSION {
        return Err(DeserializeError::UnsupportedEventVersion);
    }
    if event_size != EVENT_RECORD_SIZE {
        return Err(
            DeserializeError::EventSizeMismatch {
                record_size: event_size,
                expected_record_size: EVENT_RECORD_SIZE,
            },
        );
    }
    let rest_len = io.len() - cursor;
    let expected = events_len * event_size;
    if rest_len != expected {
        return Err(DeserializeError::BufferSizeMismatch { cursor, available: rest_len, needed: expected });
    }
    let n = events_len;
    let h = cursor;
    proof {
        assert(deserialize_outcome(io@) == match records_error(io@, n as nat) {
            Some(e) => Err(e),
            None => Ok::<nat, DeserializeError>(n as nat),
        });
    }
    let mut data = AccomplishmentData::default();
    let total = io.len();
    for k in 0..n
        invariant
            total == io@.len(),
            h == header_len(),
            deserialize_outcome(io@) == match records_error(io@, n as nat) {
                Some(e) => Err(e),
                None => Ok::<nat, DeserializeError>(n as nat),
            },
            h + 528 * n == io@.len(),
            data.events@.len() == k,
            records_error(io@, k as nat) is None,
            decodes_to(io@, data.events@),
    {
        let at = h + 528 * k;
        proof {
            assert(io@.subrange(at as int, at + 528) =~= record_at(io@, k as int));
        }
        match decode_record(io, at, k) {
            Ok(e) => {
                data.events.push(e);
            },
            Err(err) => {
                proof {
                    assert(records_error(io@, (k + 1) as nat) == Some(err));
                    lemma_records_error_stays(io@, (k + 1) as nat, n as nat);
                }
                return Err(err);
            },
        }
    }
    Ok(data)
}

/// Once some record is wrong, the first error among more records is the same.
proof fn lemma_records_error_stays(b: Seq<u8>, m: nat, n: nat)
    requires
        m <= n,
        records_error(b, m) is Some,
    ensures
        records_error(b, n) == records_error(b, m),
    decreases n - m,
{
    if m < n {
        lemma_records_error_stays(b, m, (n - 1) as nat);
    }
}

} // verus!

verus! {

proof fn lemma_read_u32_at(r: Seq<u8>, off: int, x: u32)
    requires
        0 <= off,
        off + 4 <= r.len(),
        r.subrange(off, off + 4) == u32_le(x),
    ensures
        read_u32(r, off) == x,
{
    lemma_u32_round_trip(x);
    let q = u32_le(x);
    assert(r[off] == q[0] && r[off + 1] == q[1] && r[off + 2] == q[2] && r[off + 3] == q[3]) by {
        assert(r.subrange(off, off + 4)[0] == r[off]);
        assert(r.subrange(off, off + 4)[1] == r[off + 1]);
        assert(r.subrange(off, off + 4)[2] == r[off + 2]);
        assert(r.subrange(off, off + 4)[3] == r[off + 3]);
    }
}

proof fn lemma_read_u64_at(r: Seq<u8>, off: int, x: u64)
    requires
        0 <= off,
        off + 8 <= r.len(),
        r.subrange(off, off + 8) == u64_le(x),
    ensures
        read_u64(r, off) == x,
{
    lemma_u64_round_trip(x);
    let q = u64_le(x);
    let sub = r.subrange(off, off + 8);
    assert(r[off] == q[0] && r[off + 1] == q[1] && r[off + 2] == q[2] && r[off + 3] == q[3]
        && r[off + 4] == q[4] && r[off + 5] == q[5] && r[off + 6] == q[6] && r[off + 7] == q[7]) by {
        assert(sub[0] == r[off]);
        assert(sub[1] == r[off + 1]);
        assert(sub[2] == r[off + 2]);
        assert(sub[3] == r[off + 3]);
        assert(sub[4] == r[off + 4]);
        assert(sub[5] == r[off + 5]);
        assert(sub[6] == r[off + 6]);
        assert(sub[7] == r[off + 7]);
    }
}

proof fn lemma_read_usize_at(r: Seq<u8>, off: int, x: usize)
    requires
        0 <= off,
        off + word_size() <= r.len(),
        r.subrange(off, off + word_size()) == usize_le(x),
    ensures
        read_usize(r, off) == x,
{
    if usize::BITS == 64 {
        lemma_read_u64_at(r, off, x as u64);
        assert(x as u64 as usize == x);
    } else {
        lemma_read_u32_at(r, off, x as u32);
        assert(x as u32 as usize == x);
    }
}

proof fn lemma_read_u16_at(r: Seq<u8>, off: int, x: u16)
    requires
        0 <= off,
        off + 2 <= r.len(),
        r.subrange(off, off + 2) == u16_le(x),
    ensures
        read_u16(r, off) == x,
{
    lemma_u16_round_trip(x);
    let q = u16_le(x);
    assert(r[off] == q[0] && r[off + 1] == q[1]) by {
        assert(r.subrange(off, off + 2)[0] == r[off]);
        assert(r.subrange(off, off + 2)[1] == r[off + 1]);
    }
}

/// A record is 528 bytes long.
proof fn lemma_record_len(e: Event)
    ensures
        encode_record(e).len() == 528,
{
}

/// The records of `events` take 528 bytes each, and record `k` of them is
/// the record of event `k`.
proof fn lemma_encode_records(events: Seq<Event>)
    ensures
        encode_records(events).len() == 528 * events.len(),
        forall|k: int|
            0 <= k < events.len() ==> encode_records(events).subrange(528 * k, 528 * (k + 1))
                == encode_record(#[trigger] events[k]),
    decreases events.len(),
{
    if events.len() > 0 {
        let prev = events.drop_last();
        lemma_encode_records(prev);
        lemma_record_len(events.last());
        let all = encode_records(events);
        assert forall|k: int| 0 <= k < events.len() implies all.subrange(528 * k, 528 * (k + 1))
            == encode_record(#[trigger] events[k]) by {
            if k < events.len() - 1 {
                assert(prev[k] == events[k]);
                assert(all.subrange(528 * k, 528 * (k + 1)) =~= encode_records(prev).subrange(
                    528 * k,
                    528 * (k + 1),
                ));
            } else {
                assert(all.subrange(528 * k, 528 * (k + 1)) =~= encode_record(events.last()));
            }
        }
    }
}

/// The record of an event is free of errors and reads back as that event.
proof fn lemma_record_round_trip(e: Event, index: usize)
    ensures
        record_error(encode_record(e), index) is None,
        record_decodes_to(encode_record(e), e),
{
    let r = encode_record(e);
    assert(r.subrange(0, 4) =~= u32_le(e.date.year as u32));
    lemma_read_u32_at(r, 0, e.date.year as u32);
    assert(r.subrange(4, 8) =~= u32_le(e.date.month));
    lemma_read_u32_at(r, 4, e.date.month);
    assert(r.subrange(8, 12) =~= u32_le(e.date.day));
    lemma_read_u32_at(r, 8, e.date.day);
    assert(r.subrange(14, 16) =~= u16_le(e.event_type.code() as u16));
    lemma_read_u16_at(r, 14, e.event_type.code() as u16);
    assert(r.subrange(16, 20) =~= u32_le(e.summary.length));
    lemma_read_u32_at(r, 16, e.summary.length);
    assert(r.subrange(124, 128) =~= u32_le(e.details.length));
    lemma_read_u32_at(r, 124, e.details.length);
    lemma_i32_round_trip(e.date.year);
    crate::principles::lemma_order_matches_index(e.leadership_principles@[0], 0);
    crate::principles::lemma_order_matches_index(e.leadership_principles@[1], 0);
    assert(r[12] == e.leadership_principles@[0].index() as u8);
    assert(r[13] == e.leadership_principles@[1].index() as u8);
    assert(r.subrange(20, 124) =~= e.summary.buffer@);
    assert(r.subrange(128, 528) =~= e.details.buffer@);
}

/// Reading back what [`serialize`] wrote: when the record bytes fit in a
/// `usize`, the file is accepted and its records are those events.
pub proof fn lemma_serialized_reads_back(events: Seq<Event>)
    requires
        528 * events.len() <= usize::MAX,
    ensures
        !deserialize_panics(serialized(events)),
        deserialize_outcome(serialized(events)) == Ok::<nat, DeserializeError>(events.len()),
        decodes_to(serialized(events), events),
{
    let b = serialized(events);
    let n = events.len();
    lemma_encode_records(events);
    assert(header(n as usize).len() == header_len());
    assert(b.subrange(0, header_len()) =~= header(n as usize));
    lemma_header_reads(b, n as usize);
    assert(b.len() == header_len() + 528 * n);
    assert(read_usize(b, count_at()) as int == n);
    assert forall|k: int| 0 <= k < n implies record_at(b, k) == encode_record(#[trigger] events[k]) by {
        assert(record_at(b, k) =~= encode_records(events).subrange(528 * k, 528 * (k + 1)));
    }
    assert forall|k: int| 0 <= k < n implies record_decodes_to(record_at(b, k), #[trigger] events[k]) by {
        lemma_record_round_trip(events[k], k as usize);
    }
    lemma_records_error_none(b, events, n);
}

/// The fields of a header read back as written.
proof fn lemma_header_reads(b: Seq<u8>, n: usize)
    requires
        b.len() >= header_len(),
        b.subrange(0, header_len()) == header(n),
    ensures
        first_code_mismatch(b) is None,
        read_u32(b, 3) == DATA_VERSION,
        read_usize(b, data_size_at()) == data_size(),
        read_u32(b, event_version_at()) == EVENT_VERSION,
        read_usize(b, record_size_at()) == EVENT_RECORD_SIZE,
        read_usize(b, count_at()) == n,
{
    let h = header(n);
    let wz = word_size();
    assert(usize_le(data_size()).len() == wz);
    assert(usize_le(EVENT_RECORD_SIZE).len() == wz);
    assert(usize_le(n).len() == wz);
    assert(h.len() == header_len());
    assert(b[0] == 65u8 && b[1] == 84u8 && b[2] == 83u8) by {
        assert(h[0] == 65u8 && h[1] == 84u8 && h[2] == 83u8);
        assert(b.subrange(0, header_len())[0] == b[0]);
        assert(b.subrange(0, header_len())[1] == b[1]);
        assert(b.subrange(0, header_len())[2] == b[2]);
    }
    assert(b.subrange(3, 7) =~= u32_le(DATA_VERSION)) by {
        assert(b.subrange(3, 7) =~= h.subrange(3, 7));
    }
    lemma_read_u32_at(b, 3, DATA_VERSION);
    assert(b.subrange(7, 7 + wz) =~= usize_le(data_size())) by {
        assert(b.subrange(7, 7 + wz) =~= h.subrange(7, 7 + wz));
    }
    lemma_read_usize_at(b, 7, data_size());
    assert(b.subrange(7 + wz, 11 + wz) =~= u32_le(EVENT_VERSION)) by {
        assert(b.subrange(7 + wz, 11 + wz) =~= h.subrange(7 + wz, 11 + wz));
    }
    lemma_read_u32_at(b, 7 + wz, EVENT_VERSION);
    assert(b.subrange(11 + wz, 11 + 2 * wz) =~= usize_le(EVENT_RECORD_SIZE)) by {
        assert(b.subrange(11 + wz, 11 + 2 * wz) =~= h.subrange(11 + wz, 11 + 2 * wz));
    }
    lemma_read_usize_at(b, 11 + wz, EVENT_RECORD_SIZE);
    assert(b.subrange(11 + 2 * wz, 11 + 3 * wz) =~= usize_le(n)) by {
        assert(b.subrange(11 + 2 * wz, 11 + 3 * wz) =~= h.subrange(11 + 2 * wz, 11 + 3 * wz));
    }
    lemma_read_usize_at(b, 11 + 2 * wz, n);
}

proof fn lemma_records_error_none(b: Seq<u8>, events: Seq<Event>, m: nat)
    requires
        m <= events.len(),
        forall|k: int| 0 <= k < events.len() ==> record_at(b, k) == encode_record(#[trigger] events[k]),
    ensures
        records_error(b, m) is None,
    decreases m,
{
    if m > 0 {
        lemma_records_error_none(b, events, (m - 1) as nat);
        lemma_record_round_trip(events[m - 1], (m - 1) as usize);
    }
}

/// A file determines its events: two sequences of the same length that the
/// same records hold are equal.
pub proof fn lemma_records_determine_events(b: Seq<u8>, s1: Seq<Event>, s2: Seq<Event>)
    requires
        decodes_to(b, s1),
        decodes_to(b, s2),
        s1.len() == s2.len(),
    ensures
        s1 == s2,
{
    assert forall|k: int| 0 <= k < s1.len() implies s1[k] == s2[k] by {
        let r = record_at(b, k);
        let e1 = s1[k];
        let e2 = s2[k];
        assert(record_decodes_to(r, e1));
        assert(record_decodes_to(r, e2));
        assert(e1.leadership_principles =~= e2.leadership_principles);
        assert(e1.summary.buffer =~= e2.summary.buffer);
        assert(e1.details.buffer =~= e2.details.buffer);
        assert(e1.event_type == e2.event_type);
    }
    assert(s1 =~= s2);
}

} // verus!
