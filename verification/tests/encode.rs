use radio::dsp::viterbi::encode::EncoderState;

fn state_eq(state: &EncoderState<u8>, correct: u8) {
    let x: EncoderState<u8> = correct.into();
    assert_eq!(state, &x);
}

#[test]
fn encode_test_state_updating() {
    let mut state = EncoderState::<u8>::default();

    state.push(0x00);
    state_eq(&state, 0);

    state.push(0xFF);
    state_eq(&state, 1);

    state.push(0xFF);
    state_eq(&state, 3);
    state = 1.into();

    state.push(0x00);
    state_eq(&state, 2);

    state.push(0x00);
    state_eq(&state, 0);
    state = 2.into();

    state.push(0xFF);
    state_eq(&state, 1);
    state = 3.into();

    state.push(0x00);
    state_eq(&state, 2);
    state = 3.into();

    state.push(0xFF);
    state_eq(&state, 3);
}

#[test]
fn encode_test_encoder_ouptut() {
    let mut state: EncoderState<u8> = EncoderState::default();

    let pair = state.push(0xFF);
    assert_eq!(pair, (0xFF, 0xFF));
}

#[test]
fn encode_test_to_from_encoder_state() {
    for x in 0u8..4 {
        let state: EncoderState<u8> = x.into();
        assert_eq!(x, state.into());
    }
}

#[test]
fn encode_test_from_u8() {
    let arr_a: [EncoderState<u8>; 4] = [0.into(), 1.into(), 2.into(), 3.into()];

    let arr_b: [EncoderState<u8>; 4] = [
        EncoderState(0, 0),
        EncoderState(0xFF, 0),
        EncoderState(0, 0xFF),
        EncoderState(0xFF, 0xFF),
    ];

    assert_eq!(arr_a, arr_b);
}

#[test]
fn encode_test_to_u8() {
    let arr_a: [u8; 4] = [
        EncoderState(0, 0).into(),
        EncoderState(0xFF, 0).into(),
        EncoderState(0, 0xFF).into(),
        EncoderState(0xFF, 0xFF).into(),
    ];

    let arr_b: [u8; 4] = [0, 1, 2, 3];

    assert_eq!(arr_a, arr_b);
}

#[test]
fn state_numbers_name_the_four_states() {
    assert_eq!(EncoderState::<u8>::from_state_number(0), EncoderState(0, 0));
    assert_eq!(EncoderState::<u8>::from_state_number(1), EncoderState(0xFF, 0));
    assert_eq!(EncoderState::<u8>::from_state_number(2), EncoderState(0, 0xFF));
    assert_eq!(EncoderState::<u8>::from_state_number(3), EncoderState(0xFF, 0xFF));
}

#[test]
fn encoding_in_pieces_is_encoding_the_whole() {
    let a = [0x5Au8, 0xC3, 0x01];
    let b = [0xFFu8, 0x00, 0x7E];
    let mut whole = EncoderState::<u8>::default();
    let all = whole.push_slice(&[a.as_slice(), b.as_slice()].concat());
    let mut parts = EncoderState::<u8>::default();
    let mut pieces = parts.push_slice(&a);
    pieces.extend(parts.push_slice(&b));
    assert_eq!(all, pieces);
    assert_eq!(whole, parts);
}
