use bitvec::order::Msb0;
use bitvec::view::BitView;
use bytes::{Buf, Bytes};
use radio::dsp::wtf_ecc::WtfECC;
use radio::pipeline::frame::Frame;
use radio::pipeline::ident_search::search_arr::{SearchArr, ShiftInfo};

fn encoded_ident() -> Bytes {
    let mut encoder = WtfECC::new();
    encoder.encode_to_bytes(Bytes::from_static(&Frame::IDENT))
}

#[test]
fn test_is_match() {
    let mut encoded_ident = encoded_ident();

    // force the searcher's window to be the encoded identifier
    let mut arr = [0u8; 12];
    encoded_ident.copy_to_slice(&mut arr);
    let searcher = SearchArr::from_window(arr);

    assert!(searcher.is_match());
}

#[test]
fn test_push_1() {
    let mut encoded_ident = encoded_ident();
    let mut searcher = SearchArr::new();

    while encoded_ident.remaining() > 1 {
        searcher.push(encoded_ident.get_u8());
    }

    let ans = searcher.push(encoded_ident.get_u8());

    assert_eq!(ans, Some(ShiftInfo { offset: 0, head: 0 }));
}

#[test]
fn test_push_2() {
    let mut bytestream = encoded_ident().to_vec();
    let mut searcher = SearchArr::new();
    let mut ans = None;

    // put a 0 byte at the start
    bytestream.insert(0, 0);

    for b in bytestream {
        ans = searcher.push(b);
    }

    assert_eq!(ans, Some(ShiftInfo { offset: 0, head: 0 }));
}

#[test]
#[allow(deprecated)]
fn test_push_3() {
    let mut byte_stream = encoded_ident().to_vec();
    let mut searcher = SearchArr::new();
    let mut ans = None;

    // put a byte at start and end
    byte_stream.insert(0, 0xA3);
    byte_stream.push(0b10101010);

    let bit_thingy = byte_stream.view_bits_mut::<Msb0>();
    bit_thingy.shift_left(1);

    for b in byte_stream {
        ans = searcher.push(b);

        if ans.is_some() {
            break;
        }
    }

    assert_eq!(ans, Some(ShiftInfo { offset: 1, head: 0b10000000 }));
}

#[test]
fn test_data_recover_x() {
    for x in 0..8 {
        test_recover_data(&[240], &[0xFF, 0x42, 42, 0, 0b01010101], x)
    }
}

#[allow(deprecated)]
fn test_recover_data(pre: &[u8], post: &[u8], shift_left_by: usize) {
    let desired_data = post.to_vec();
    let mut enc_ident = encoded_ident().to_vec();
    let mut searcher = SearchArr::new();
    let mut ans = None;

    let mut byte_stream = Vec::with_capacity(pre.len() + enc_ident.len() + post.len());

    byte_stream.append(&mut pre.to_vec());
    byte_stream.append(&mut enc_ident);
    byte_stream.append(&mut post.to_vec());

    let bit_thingy = byte_stream.view_bits_mut::<Msb0>();
    bit_thingy.shift_left(shift_left_by);

    let mut i = 0;
    for b in byte_stream.clone() {
        ans = searcher.push(b);
        i += 1;

        if ans.is_some() {
            break;
        }
    }

    let mut data = byte_stream[i..].to_vec();

    assert!(ans.is_some());
    let offset = ans.unwrap().offset;
    assert_eq!(offset, shift_left_by as u8);

    // just to be extra sure that we don't accidentally peek at them
    drop(byte_stream);

    let mut space: u16 = (ans.unwrap().head as u16) << offset;

    for i in 0..data.len() {
        space |= data[i] as u16;
        space = space.rotate_right(offset as u32);
        data[i] = space as u8;

        space = space.swap_bytes();
        space &= 255;
        space <<= offset;
    }

    assert_eq!(desired_data, data);
}

#[test]
fn a_fresh_window_does_not_match() {
    let searcher = SearchArr::new();
    assert!(!searcher.is_match());
}

#[test]
fn a_search_that_finds_nothing_returns_none() {
    let mut searcher = SearchArr::new();
    for b in [0x12u8, 0x34, 0x56, 0x78, 0x9A, 0xBC] {
        assert_eq!(searcher.push(b), None);
    }
}
