use blit::constant_time_eq;
use blit::frame::{decode_frame_header, make_frame, read_frame, unframe, FrameHeader, MAX_FRAME_SIZE};

#[test]
fn ct_eq_equal_slices() {
    assert!(constant_time_eq(b"hello", b"hello"));
}

#[test]
fn ct_eq_different_slices() {
    assert!(!constant_time_eq(b"hello", b"world"));
}

#[test]
fn ct_eq_different_lengths() {
    assert!(!constant_time_eq(b"short", b"longer"));
}

#[test]
fn ct_eq_empty_slices() {
    assert!(constant_time_eq(b"", b""));
}

#[test]
fn ct_eq_single_bit_diff() {
    assert!(!constant_time_eq(b"\x00", b"\x01"));
}

#[test]
fn ct_eq_one_empty_one_not() {
    assert!(!constant_time_eq(b"", b"x"));
}

#[test]
fn make_frame_prefixes_length() {
    assert_eq!(make_frame(b"abc"), vec![3, 0, 0, 0, b'a', b'b', b'c']);
    assert_eq!(make_frame(b""), vec![0, 0, 0, 0]);
    let big = vec![7u8; 300];
    let f = make_frame(&big);
    assert_eq!(&f[..4], &[44, 1, 0, 0]);
    assert_eq!(&f[4..], &big[..]);
}

#[test]
fn frame_header_round_trip_values() {
    let f = make_frame(b"hello");
    let hdr = [f[0], f[1], f[2], f[3]];
    assert_eq!(decode_frame_header(hdr), FrameHeader::Body(5));
    assert_eq!(decode_frame_header([0, 0, 0, 0]), FrameHeader::Empty);
    assert_eq!(decode_frame_header([0, 0, 0, 2]), FrameHeader::TooLarge);
    let max = (MAX_FRAME_SIZE as u32).to_le_bytes();
    assert_eq!(decode_frame_header(max), FrameHeader::Body(MAX_FRAME_SIZE));
    let over = (MAX_FRAME_SIZE as u32 + 1).to_le_bytes();
    assert_eq!(decode_frame_header(over), FrameHeader::TooLarge);
}

#[test]
fn channel_messages_unframe() {
    assert_eq!(unframe(&[3, 0, 0]), None);
    assert_eq!(unframe(&[3, 0, 0, 0, 1, 2]), None);
    assert_eq!(unframe(&[3, 0, 0, 0, 1, 2, 3, 9]), Some(vec![1, 2, 3]));
    assert_eq!(unframe(&[0, 0, 0, 0]), Some(vec![]));
    assert_eq!(unframe(&make_frame(b"hello")), Some(b"hello".to_vec()));
    assert_eq!(unframe(&[255, 255, 255, 255, 1]), None);
}

#[test]
fn frames_read_back_from_a_stream() {
    let mut stream = make_frame(b"abc");
    stream.extend_from_slice(&make_frame(b""));
    stream.push(7);
    assert_eq!(read_frame(&stream), Some((b"abc".to_vec(), 7)));
    assert_eq!(read_frame(&stream[7..]), Some((vec![], 4)));
    assert_eq!(read_frame(&stream[11..]), None);
    assert_eq!(read_frame(&make_frame(b"abc")[..6]), None);
    assert_eq!(read_frame(&[0, 0, 0, 2, 1, 2, 3]), None);
    let mut big = vec![1, 0, 0, 1];
    big.extend(std::iter::repeat(0u8).take(10));
    assert_eq!(read_frame(&big), None);
}
