use bitvec::order::Msb0;
use bitvec::view::BitView;
use bytes::Bytes;
use radio::dsp::viterbi::decode::DecoderState;
use radio::dsp::viterbi::encode::EncoderState;
use radio::dsp::wtf_ecc::WtfECC;
use radio::pipeline::frame::Frame;
use radio::pipeline::ident_search::search_task::Task;
use radio::pipeline::sample_ident_search::{decide, matches_ident, read_len, state_after, SampleAction, State};
use radio::pipeline::ByteAccumulator;

fn encoded_frame(payload: &[u8]) -> Vec<u8> {
    let frame = Frame::new_from_bin(Bytes::from(payload.to_vec())).unwrap();
    frame.encode().to_vec()
}

fn encoded_payload(payload: &[u8]) -> Vec<u8> {
    let mut encoder = WtfECC::new();
    encoder.encode_to_bytes(Bytes::from(payload.to_vec())).to_vec()
}

#[allow(deprecated)]
fn capture(pre: &[u8], payload: &[u8], post: &[u8], shift: usize) -> Vec<Vec<u8>> {
    let mut stream = pre.to_vec();
    stream.extend(encoded_frame(payload));
    stream.extend_from_slice(post);
    stream.view_bits_mut::<Msb0>().shift_left(shift);

    let mut task = Task::new();
    let mut out = Vec::new();
    for b in stream {
        if let Some(captured) = task.step(b) {
            out.push(captured.to_vec());
        }
    }
    out
}

#[test]
fn capture_finds_a_frame_at_every_bit_offset() {
    let payload = [0xFF, 0x42, 42, 0, 0b01010101];
    for shift in 0..8 {
        let out = capture(&[240], &payload, &[0, 0], shift);
        assert_eq!(out, vec![encoded_payload(&payload)], "shift {}", shift);
    }
}

#[test]
fn capture_hands_out_an_empty_payload() {
    let out = capture(&[0x11, 0x22], &[], &[0], 3);
    assert_eq!(out, vec![Vec::<u8>::new()]);
}

#[test]
fn capture_takes_two_frames_in_a_row() {
    let mut stream = vec![0x0Fu8];
    stream.extend(encoded_frame(&[1, 2, 3]));
    stream.extend(encoded_frame(&[9]));
    let mut task = Task::new();
    let mut out = Vec::new();
    for b in stream {
        if let Some(captured) = task.step(b) {
            out.push(captured.to_vec());
        }
    }
    assert_eq!(out, vec![encoded_payload(&[1, 2, 3]), encoded_payload(&[9])]);
}

#[test]
fn take_data_empties_the_buffer() {
    let mut task = Task::new();
    let taken = task.take_data(6);
    assert!(taken.is_empty());
}

fn bits_of(bytes: &[u8]) -> Vec<bool> {
    let mut bits = Vec::new();
    for b in bytes {
        for i in 0..8 {
            bits.push((b >> i) & 1 == 1);
        }
    }
    bits
}

fn feed(acc: &mut ByteAccumulator, bits: &[bool]) -> Vec<Vec<u8>> {
    let mut out = Vec::new();
    for &bit in bits {
        if let Some(m) = acc.accumulate_bit(bit) {
            out.push(m);
        }
    }
    out
}

#[test]
fn accumulator_collects_a_short_message() {
    let mut acc = ByteAccumulator::new();
    let mut bits = bits_of(&[(3 << 1) | 1, 0x11, 0x22, 0x33]);
    bits.push(false);
    assert_eq!(feed(&mut acc, &bits), vec![vec![0x11, 0x22, 0x33]]);
}

#[test]
fn accumulator_skips_leading_zero_bits() {
    let mut acc = ByteAccumulator::new();
    let mut bits = vec![false, false, false];
    bits.extend(bits_of(&[(1 << 1) | 1, 0xAB]));
    bits.push(true);
    assert_eq!(feed(&mut acc, &bits), vec![vec![0xAB]]);
}

#[test]
fn accumulator_removes_a_good_parity_byte() {
    let data = [1u8, 2, 3, 4, 5, 6, 7];
    // bytes with an odd number of one bits: 1, 2, 4, 7
    let parity = 0b10101000 | 4;
    let mut message = vec![(9 << 1) | 1];
    message.extend_from_slice(&data);
    message.push(parity);
    message.push(8);
    let mut bits = bits_of(&message);
    bits.push(false);
    let mut acc = ByteAccumulator::new();
    assert_eq!(feed(&mut acc, &bits), vec![vec![1, 2, 3, 4, 5, 6, 7, 8]]);
}

#[test]
fn accumulator_drops_a_message_with_a_bad_parity_byte() {
    let mut message = vec![(9 << 1) | 1, 1, 2, 3, 4, 5, 6, 7];
    message.push(0b10101000);
    message.push(8);
    let mut bits = bits_of(&message);
    bits.push(false);
    let mut acc = ByteAccumulator::new();
    assert_eq!(feed(&mut acc, &bits), Vec::<Vec<u8>>::new());
}

#[test]
fn accumulate_byte_reads_the_length_first() {
    let mut acc = ByteAccumulator::new();
    assert_eq!(acc.accumulate_byte(2 << 1), None);
    assert_eq!(acc.accumulate_byte(0x10), None);
    assert_eq!(acc.accumulate_byte(0x20), Some(vec![0x10, 0x20]));
}

#[test]
fn matches_ident_reads_the_decoded_bytes_back_to_front() {
    let mut reversed = Frame::IDENT;
    reversed.reverse();
    let encoded = encoded_payload(&reversed);
    assert!(matches_ident(&encoded));
    assert!(!matches_ident(&encoded_payload(&Frame::IDENT)));
    assert!(!matches_ident(&[1, 2, 3]));
}

#[test]
fn read_len_reads_the_low_byte_first() {
    assert_eq!(read_len(&encoded_payload(&[0x34, 0x12])), 0x1234);
}

#[test]
fn parallel_push_matches_serial_push() {
    let bytes = vec![0x12u8, 0xF0, 0x0F, 0x99, 0x00, 0xFF];
    let mut encoder: EncoderState<u8> = EncoderState::default();
    let encoded = encoder.push_slice(&bytes);

    let mut decoder = DecoderState::new(bytes.len());
    decoder.push_slice_para(&encoded);
    assert_eq!(decoder.read(), bytes);
}

#[test]
fn sample_search_waits_for_whole_length_and_payload() {
    assert_eq!(decide(State::Ident, 10, 0, 0), SampleAction::SearchIdent);
    assert_eq!(decide(State::Len, 10, 479, 0), SampleAction::Wait);
    assert_eq!(decide(State::Len, 10, 480, 0), SampleAction::ReadLen(480));
    assert_eq!(decide(State::Data, 10, 239, 1), SampleAction::Wait);
    assert_eq!(decide(State::Data, 10, 240, 1), SampleAction::ReadData);
    assert_eq!(state_after(State::Ident, SampleAction::SearchIdent, false), State::Ident);
    assert_eq!(state_after(State::Ident, SampleAction::SearchIdent, true), State::Len);
    assert_eq!(state_after(State::Len, SampleAction::ReadLen(480), false), State::Data);
    assert_eq!(state_after(State::Data, SampleAction::ReadData, false), State::Ident);
    assert_eq!(state_after(State::Data, SampleAction::Wait, false), State::Data);
}
