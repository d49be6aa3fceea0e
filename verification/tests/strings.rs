use accomplishment_tracker::fixed_string::{CustomStringTrait, LargeString, TinyString};

#[test]
fn write_keeps_text_and_length() {
    let s = TinyString::default().build_write(b"abc");
    assert_eq!(s.length(), 3);
    assert_eq!(s.as_str(), "abc");
    assert_eq!(&s.buffer()[..3], b"abc");
    assert!(s.buffer()[3..].iter().all(|b| *b == 0));
}

#[test]
fn write_truncates_to_capacity() {
    let long = [b'x'; 150];
    let s = TinyString::default().build_write(&long);
    assert_eq!(s.length(), 104);
    let l = LargeString::default().build_write(&[b'y'; 500]);
    assert_eq!(l.length(), 400);
    assert_eq!(l.as_str().len(), 400);
}

#[test]
fn write_keeps_old_tail() {
    let s = TinyString::default().build_write(b"abcdef").build_write(b"xy");
    assert_eq!(s.length(), 2);
    assert_eq!(s.as_str(), "xy");
    assert_eq!(&s.buffer()[..6], b"xycdef");
}

#[test]
fn from_str_holds_utf8_bytes() {
    let s = TinyString::from_str("héllo");
    assert_eq!(s.length(), 6);
    assert_eq!(s.as_str(), "héllo");
    assert_eq!(&s.buffer()[6..], &[0u8; 98][..]);
    let l = LargeString::from_str("");
    assert_eq!(l.length(), 0);
    assert_eq!(l.as_str(), "");
}

#[test]
fn set_length_keeps_buffer() {
    let mut s = LargeString::default().build_write(b"hello");
    s.set_length(2);
    assert_eq!(s.as_str(), "he");
    assert_eq!(&s.buffer()[..5], b"hello");
}
