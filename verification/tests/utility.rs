use radio::frame::Frame;
use radio::tools::{bin_to_u8, u8_to_bin};
use radio::AMBLE;

#[test]
fn u8_to_bin_test() {
    let bin = [3_u8, 5, 1, 2];
    let expected = "00000011000001010000000100000010".to_string();

    let to_test = u8_to_bin(bin.as_slice());

    assert_eq!(to_test, expected, "u8 to bin check.\n\tGot: {}\n\tExpected: {}", to_test, expected);
}

#[test]
fn frame_test() {
    // Test bytes
    let test_arr1 = [4, 252, 112, 128];

    // Make a frame
    let frame_1 = Frame::new(test_arr1.clone().as_mut_slice());

    // Turn the frame into a string
    let for_transmission1 = frame_1.assemble();

    // Reassemble
    let frame_3 = Frame::from(&for_transmission1[(AMBLE.len() / 8)..]);

    // Ensure frames match
    assert_eq!(frame_1.assemble(), frame_3.assemble());
}

#[test]
fn bin_to_u8_reads_whole_bytes() {
    assert_eq!(bin_to_u8("0000001100000101"), vec![3, 5]);
    assert_eq!(bin_to_u8("111100001"), vec![0xF0]);
    assert_eq!(bin_to_u8(""), Vec::<u8>::new());
}

#[test]
fn bin_round_trip() {
    let bytes = vec![0, 1, 0x7F, 0x80, 0xFF, 42];
    assert_eq!(bin_to_u8(&u8_to_bin(&bytes)), bytes);
}

#[test]
fn frame_round_trip_fields() {
    let payload = vec![56, 203, 1, 0, 69];
    let sent = Frame::new(&payload).assemble();
    // 4 preamble bytes, then 3 * (4 + 2 + 5) encoded bytes
    assert_eq!(sent.len(), 4 + 33);
    assert_eq!(&sent[..4], &[0xAA; 4]);
    let got = Frame::from(&sent[4..]);
    assert!(got.has_ident);
    assert!(got.is_complete);
    assert_eq!(got.data, payload);
}

#[test]
fn frame_with_wrong_ident_is_rejected() {
    let mut sent = Frame::new(&[1, 2, 3]).assemble();
    // corrupt the identifier in all three copies of its first byte
    sent[4] ^= 1;
    sent[8] ^= 1;
    sent[12] ^= 1;
    let got = Frame::from(&sent[4..]);
    assert!(!got.has_ident);
    assert!(!got.is_complete);
    assert!(got.data.is_empty());
}

#[test]
fn truncated_frame_is_not_complete() {
    let sent = Frame::new(&[9, 8, 7, 6]).assemble();
    let got = Frame::from(&sent[4..sent.len() - 3]);
    assert!(got.has_ident);
    assert!(!got.is_complete);
    assert!(got.data.is_empty());
}

#[test]
fn empty_payload_is_never_complete() {
    let sent = Frame::new(&[]).assemble();
    let got = Frame::from(&sent[4..]);
    assert!(got.has_ident);
    assert!(!got.is_complete);
}
