use bytes::Bytes;
use radio::dsp::wtf_ecc::WtfECC;
use radio::pipeline::frame::Frame;
use radio::tools::{bin_char_arr_to_usize_unchecked, i32_to_char_bin};

#[test]
fn a_payload_too_long_for_the_length_field_is_handed_back() {
    let payload = vec![7u8; 65536];
    let r = Frame::new_from_bin(Bytes::from(payload.clone()));
    match r {
        Err(back) => assert_eq!(&back[..], &payload[..]),
        Ok(_) => panic!("a frame of 65536 bytes was made"),
    }
}

#[test]
fn change_bin_keeps_the_old_payload_on_error() {
    let mut frame = Frame::new_from_bin(Bytes::from(vec![1u8, 2, 3])).unwrap();
    assert_eq!(frame.len(), 3);
    assert!(frame.change_bin(Bytes::from(vec![0u8; 70000])).is_err());
    assert_eq!(frame.len(), 3);
    assert_eq!(frame.len_usize(), 3);
    assert!(frame.change_bin(Bytes::from(vec![9u8; 300])).is_ok());
    assert_eq!(frame.len(), 300);
}

#[test]
fn an_empty_frame_has_no_payload() {
    assert_eq!(Frame::empty().len(), 0);
}

#[test]
fn encode_sends_identifier_length_and_payload() {
    let payload = [0xAB, 0xCD, 0xEF];
    let frame = Frame::new_from_bin(Bytes::from(payload.to_vec())).unwrap();
    let sent = frame.encode();

    let mut expected = Vec::new();
    for part in [Frame::IDENT.to_vec(), vec![3, 0], payload.to_vec()] {
        let mut encoder = WtfECC::new();
        expected.extend_from_slice(&encoder.encode_to_bytes(Bytes::from(part))[..]);
    }
    assert_eq!(&sent[..], &expected[..]);
    assert_eq!(sent.len(), 12 + 6 + 9);
    assert_eq!(Frame::ENCODED_IDENT_LENGTH, 12);
}

#[test]
fn a_long_length_is_sent_low_byte_first() {
    let frame = Frame::new_from_bin(Bytes::from(vec![0u8; 0x0102])).unwrap();
    let sent = frame.encode();
    let mut encoder = WtfECC::new();
    let len = encoder.encode_to_bytes(Bytes::from(vec![0x02u8, 0x01]));
    assert_eq!(&sent[12..18], &len[..]);
}

#[test]
fn binary_digits_read_as_a_number() {
    assert_eq!(bin_char_arr_to_usize_unchecked("0"), 0);
    assert_eq!(bin_char_arr_to_usize_unchecked("11"), 3);
    assert_eq!(bin_char_arr_to_usize_unchecked("10000001"), 129);
    assert_eq!(bin_char_arr_to_usize_unchecked(""), 0);
}

#[test]
fn a_number_written_in_binary_digits() {
    assert_eq!(i32_to_char_bin(5, 4), vec!['0', '1', '0', '1']);
    assert_eq!(i32_to_char_bin(255, 8), vec!['1'; 8]);
    assert_eq!(i32_to_char_bin(6, 2), vec!['1', '0']);
    assert_eq!(i32_to_char_bin(0, 0), Vec::<char>::new());
}
