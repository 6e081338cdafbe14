use radio::dsp::viterbi::decode::single_bit_rc_decode::{BitDecoderState, Link};
use radio::dsp::viterbi::decode::RcDecoderState;
use radio::dsp::viterbi::encode::EncoderState;

#[test]
fn single_bit_rc_decode_test_hamming_distance() {
    assert_eq!(Link::hamming_dist(255, 0), 8);
    assert_eq!(Link::hamming_dist(1, 0), 1);
    assert_eq!(Link::hamming_dist(2, 0), 1);
    assert_eq!(Link::hamming_dist(2, 1), 2);
    assert_eq!(Link::hamming_dist(0, 0), 0);
    assert_eq!(Link::hamming_dist(255, 255), 0);
    assert_eq!(Link::hamming_dist(0b00010101, 0b00000100), 2);
}

fn rc_round_trip(bytes: &Vec<u8>) -> Vec<u8> {
    let mut encoder: EncoderState<u8> = EncoderState::default();
    let data_encoded = encoder.push_slice(bytes);

    let mut decoder = RcDecoderState::new();
    decoder.push_slice(&data_encoded);
    decoder.read()
}

#[test]
fn rc_round_trip_mixed_bytes() {
    let bytes = vec![0xFF, 0x10, 0x00, 0x5A, 0xC3];
    assert_eq!(rc_round_trip(&bytes), bytes);
}

#[test]
fn rc_round_trip_long_run() {
    let bytes: Vec<u8> = (0..200u32).map(|i| (i * 37 % 256) as u8).collect();
    assert_eq!(rc_round_trip(&bytes), bytes);
}

#[test]
fn rc_corrects_a_flipped_bit() {
    let bytes = vec![0xA5, 0x3C, 0x00, 0xFF, 0x81, 0x18];
    let mut encoder: EncoderState<u8> = EncoderState::default();
    let mut data_encoded = encoder.push_slice(&bytes);
    data_encoded[4] ^= 0x10;

    let mut decoder = RcDecoderState::new();
    decoder.push_slice(&data_encoded);
    assert_eq!(decoder.read(), bytes);
}

#[test]
fn first_links_start_from_the_zero_state() {
    let [with_bit, with_zero] = Link::first_links(0, 1);
    assert_eq!(with_bit.bit, 1);
    assert_eq!(with_bit.state, 1);
    assert_eq!(with_bit.cost, 2);
    assert!(with_bit.prev_link.is_none());
    assert_eq!(with_zero.bit, 0);
    assert_eq!(with_zero.state, 0);
    assert_eq!(with_zero.cost, 0);
    assert_eq!(with_zero.position(), 0);
}

#[test]
fn next_links_extend_the_given_link() {
    let start = Link { prev_link: None, bit: 1, state: 1, cost: 3 };
    let rc = start.to_rc_link();
    let [a, b] = Link::next_links(&rc, 0, 1);
    assert_eq!(a.state, 3);
    assert_eq!(b.state, 2);
    assert_eq!(a.prev_link.as_ref().unwrap().cost, 3);
    assert!(Link::link_to(&rc).is_some());
}

#[test]
fn lane_decoder_reads_its_cheapest_path() {
    let mut lane = BitDecoderState::new(4);
    // the encoding of bits 1, 0, 1 on this lane
    let mut encoder: EncoderState<u8> = EncoderState::default();
    let encoded = encoder.push_slice(&[4, 0, 4]);
    for k in 0..3 {
        lane.push(encoded[2 * k] & 4, encoded[2 * k + 1] & 4);
    }
    assert_eq!(lane.read(), vec![4, 0, 4]);
}

#[test]
fn lane_decoder_reads_only_its_bit_or_zero() {
    let mut lane = BitDecoderState::new(0x20);
    for (s0, s1) in [(0x20u8, 0u8), (0, 0x20), (0x20, 0x20), (0, 0), (0x20, 0)] {
        lane.push(s0, s1);
    }
    let out = lane.read();
    assert_eq!(out.len(), 5);
    assert!(out.iter().all(|&b| b == 0 || b == 0x20));
    assert_eq!(lane.read(), out);
}
