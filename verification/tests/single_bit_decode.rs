use radio::dsp::viterbi::decode::single_bit_decode::{BitDecoderState, Link};

#[test]
fn single_bit_decode_test_hamming_distance() {
    assert_eq!(Link::hamming_dist(255, 0), 8);
    assert_eq!(Link::hamming_dist(1, 0), 1);
    assert_eq!(Link::hamming_dist(2, 0), 1);
    assert_eq!(Link::hamming_dist(2, 1), 2);
    assert_eq!(Link::hamming_dist(0, 0), 0);
    assert_eq!(Link::hamming_dist(255, 255), 0);
    assert_eq!(Link::hamming_dist(0b00010101, 0b00000100), 2);
}

#[test]
fn test_minimize_cost() {
    let mut link_a = Link { prev_state: 0, cost: 10 };

    let link_b = Link { prev_state: 1, cost: 11 };

    link_a.minimize_cost(link_b);

    assert_eq!(link_a.prev_state, 0);
    assert_eq!(link_a.cost, 10);

    let link_c = Link { prev_state: 2, cost: 9 };

    link_a.minimize_cost(link_c);

    assert_eq!(link_a.prev_state, 2);
    assert_eq!(link_a.cost, 9);
}

#[test]
fn test_next_link() {
    let arr = Link::next(1, 2, 0);

    assert_eq!(arr[0].0, Link { prev_state: 1, cost: 0 });

    assert_eq!(arr[1].0, Link { prev_state: 1, cost: 2 });
}

#[test]
fn test_generate_link() {
    let (link_0, _) = Link::generate(1, 2, 0, 1);

    assert_eq!(link_0, Link { prev_state: 1, cost: 2 });
}

#[test]
fn generate_places_the_link_at_the_next_state() {
    // state 1 (last input 1), input 1: new state 1 + 2 * 1 = 3
    assert_eq!(Link::generate(1, 0, 4, 1).1, 3);
    // state 2 (input before last 1), input 0: new state 0
    assert_eq!(Link::generate(2, 0, 0, 0).1, 0);
}

#[test]
fn equal_costs_keep_the_first_link() {
    let mut link = Link { prev_state: 0, cost: 5 };
    link.minimize_cost(Link { prev_state: 3, cost: 5 });
    assert_eq!(link, Link { prev_state: 0, cost: 5 });
}

#[test]
fn lane_decoder_recovers_bits() {
    // bits 1, 0, 1, 1 through a lane encoder starting in state 0
    // outputs (s1 ^ b, s0 ^ s1 ^ b): (1,1), (0,1), (0,0), (1,0)
    let mut decoder = BitDecoderState::new(4);
    decoder.push(1, 1);
    decoder.push(0, 1);
    decoder.push(0, 0);
    decoder.push(1, 0);
    assert_eq!(decoder.read(0x04), vec![0x04, 0, 0x04, 0x04]);
}

#[test]
fn lane_decoder_corrects_a_flipped_bit() {
    // bits 1, 0, 1, 1, 0, 0, 0, 0 encode to (1,1) (0,1) (0,0) (1,0) (1,0) (1,1) (0,0) (0,0);
    // the second bit of the third pair is flipped on the way
    let mut decoder = BitDecoderState::new(8);
    for (a, b) in [(1, 1), (0, 1), (0, 1), (1, 0), (1, 0), (1, 1), (0, 0), (0, 0)] {
        decoder.push(a, b);
    }
    assert_eq!(decoder.read(1), vec![1, 0, 1, 1, 0, 0, 0, 0]);
}
