use bytes::{Buf, Bytes, BytesMut};
use radio::dsp::wtf_ecc::WtfECC;

#[test]
fn encode_sends_three_copies() {
    let mut encoder = WtfECC::new();
    let mut out = encoder.encode(Bytes::from(vec![0x0F, 0xF0]));
    let n = out.remaining();
    let bytes = out.copy_to_bytes(n);
    assert_eq!(&bytes[..], &[0x0F, 0xF0, 0xF0, 0x0F, 0x0F, 0xFF]);
}

#[test]
fn decode_recovers_data() {
    let data = vec![1, 2, 3, 250, 0, 77];
    let mut encoder = WtfECC::new();
    let mut encoded = encoder.encode_to_bytes(Bytes::from(data.clone()));
    let mut decoder = WtfECC::new();
    assert_eq!(&decoder.decode(&mut encoded)[..], &data[..]);
}

#[test]
fn decode_corrects_one_bad_copy_per_bit() {
    let data = vec![0x55, 0xAA, 0x0F];
    let mut encoder = WtfECC::new();
    let mut encoded = encoder.encode_to_bytes(Bytes::from(data.clone())).to_vec();
    encoded[0] ^= 0x81; // plain copy of byte 0
    encoded[4] ^= 0x10; // inverted copy of byte 1
    encoded[8] ^= 0x06; // xored copy of byte 2
    encoded[2] ^= 0x40; // plain copy of byte 2, a different bit
    let mut decoder = WtfECC::new();
    assert_eq!(&decoder.decode(&mut Bytes::from(encoded))[..], &data[..]);
}

#[test]
fn decode_into_appends_and_leaves_the_rest() {
    let mut src = Bytes::from(vec![7, 8, !7, !8, 7, 8 ^ 7, 99]);
    let mut dst = BytesMut::new();
    let mut decoder = WtfECC::new();
    decoder.decode_into(&mut src, &mut dst);
    assert_eq!(&dst[..], &[7, 8]);
    assert_eq!(&src[..], &[7, 8 ^ 7, 99]);
}

#[test]
fn reset_forgets_the_previous_byte() {
    let mut encoder = WtfECC::new();
    let first = encoder.encode_to_bytes(Bytes::from(vec![5]));
    let second = encoder.encode_to_bytes(Bytes::from(vec![5]));
    assert_eq!(&second[..], &[5, !5, 0]);
    encoder.reset();
    let third = encoder.encode_to_bytes(Bytes::from(vec![5]));
    assert_eq!(first, third);
}
