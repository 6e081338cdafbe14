use radio::rx_handling::WindowHandler;
use radio::tools::bin_to_u8;
use radio::IDENT;

fn add_data_bit_by_bit(window: &mut WindowHandler, bin: Vec<u8>) {
    for x in 0..bin.len() * 8 {
        let shifted = bin[x / 8] >> (7 - (x % 8)) & 1;
        window.add(&[shifted])
    }
}

fn flip_u8s(bin: &[u8]) -> Vec<u8> {
    bin.iter().map(|&x| !x).collect()
}

#[test]
fn window() {
    let mut window = WindowHandler::new(IDENT);

    add_data_bit_by_bit(&mut window, bin_to_u8(IDENT));
    assert!(window.currently_recording);
    assert_eq!(window.take_frame(), None);

    add_data_bit_by_bit(&mut window, vec![0, 8]);
    assert_eq!(window.frame_len, 8);

    let test_data = vec![24, 241, 58, 1, 0, 3, 91, 2];
    add_data_bit_by_bit(&mut window, test_data.clone());

    assert_eq!(window.take_frame(), Some(test_data));
    assert!(!window.currently_recording);
    assert_eq!(window.frame_len, 0);
}

#[test]
fn window_flipped() {
    let mut window = WindowHandler::new(IDENT);

    add_data_bit_by_bit(&mut window, flip_u8s(&bin_to_u8(IDENT)));
    assert!(window.currently_recording);
    assert!(window.is_flipped);

    add_data_bit_by_bit(&mut window, vec![!0, !8]);
    assert_eq!(window.frame_len, 8);

    let test_data = vec![24, 241, 58, 1, 0, 3, 91, 2];
    add_data_bit_by_bit(&mut window, flip_u8s(&test_data));

    assert_eq!(window.take_frame(), Some(test_data));
}

#[test]
fn shift_and_carry_moves_every_bit_left() {
    let mut bin = vec![0b1000_0001u8, 0b0100_0000];
    WindowHandler::shift_and_carry(&mut bin, 1);
    assert_eq!(bin, vec![0b0000_0010, 0b1000_0001]);
}

#[test]
fn reset_stops_recording() {
    let mut window = WindowHandler::new(IDENT);
    add_data_bit_by_bit(&mut window, bin_to_u8(IDENT));
    assert!(window.currently_recording);
    window.reset();
    assert!(!window.currently_recording);
    assert_eq!(window.recording_len, 1);
    assert_eq!(window.bit_counter, 8);
}

#[test]
fn window_finds_frame_after_stray_bits() {
    let mut window = WindowHandler::new(IDENT);
    for b in [1u8, 0, 1] {
        window.add(&[b]);
    }
    add_data_bit_by_bit(&mut window, bin_to_u8(IDENT));
    assert!(window.currently_recording);
    assert!(!window.is_flipped);

    add_data_bit_by_bit(&mut window, vec![0, 3]);
    add_data_bit_by_bit(&mut window, vec![7, 8, 9]);
    assert_eq!(window.frame_len, 3);
    assert_eq!(window.take_frame(), Some(vec![7, 8, 9]));
}

#[test]
fn polling_after_every_bit_takes_the_whole_frame() {
    let mut window = WindowHandler::new(IDENT);
    let mut stream = bin_to_u8(IDENT);
    stream.extend_from_slice(&[0, 3, 7, 8, 9]);
    let mut frames = Vec::new();
    for x in 0..stream.len() * 8 {
        window.add(&[stream[x / 8] >> (7 - (x % 8)) & 1]);
        if let Some(frame) = window.take_frame() {
            frames.push(frame);
        }
    }
    assert_eq!(frames, vec![vec![7, 8, 9]]);
}
