//! A Viterbi decoder for one bit lane, keeping the whole trellis.
use vstd::prelude::*;
use crate::dsp::viterbi::common::{combine, spec_combine, spec_squish, spec_state_to_bit, spec_stretch, state_to_bit, stretch};
use crate::dsp::viterbi::encode::{EncoderState, spec_state_from_u8};

verus! {

/// A survivor link in the trellis: the state it came from and the cost of the
/// best path that reaches it.
#[derive(Debug, Clone, Copy, PartialEq, Eq)]
pub struct Link {
    pub prev_state: u8,
    /// enough for the decoder to consume 254 bits (yielding 127 bits) no matter what
    pub cost: u8,
}

/// The empty link: no path reaches the state.
pub open spec fn spec_link_none() -> Link {
    Link { prev_state: 255, cost: 255 }
}

/// The number of set bits of `x`.
pub open spec fn spec_popcount(x: u8) -> int {
    (x & 1) as int + ((x >> 1u8) & 1) as int + ((x >> 2u8) & 1) as int + ((x >> 3u8) & 1) as int
        + ((x >> 4u8) & 1) as int + ((x >> 5u8) & 1) as int + ((x >> 6u8) & 1) as int + ((x >> 7u8)
        & 1) as int
}

/// The number of bits in which `a` and `b` differ.
pub open spec fn spec_hamming(a: u8, b: u8) -> int {
    spec_popcount(a ^ b)
}

/// The state a lane encoder in `state` (0..4) goes to on input `bit`
/// (any non-zero byte counts as 1).
pub open spec fn spec_lane_next(state: u8, bit: u8) -> u8 {
    (spec_squish(bit) + 2 * (state % 2)) as u8
}

/// The bit pair a lane encoder in `state` (0..4) emits on input `bit`.
pub open spec fn spec_lane_out(state: u8, bit: u8) -> u8 {
    let b = spec_squish(bit) as int;
    let s0 = (state % 2) as int;
    let s1 = (state / 2) as int;
    ((s1 + b) % 2 + 2 * ((s0 + s1 + b) % 2)) as u8
}

/// The number of states a decoder that already holds `n` columns extends
/// when it takes the next bit pair: only state 0 at the start, states 0 and 1
/// after one pair, all four afterwards.
pub open spec fn spec_num_states(n: int) -> int {
    if n == 0 { 1 } else if n == 1 { 2 } else { 4 }
}

/// Whether column `i` of a trellis (the states after `i + 1` bit pairs) can
/// hold state `p`.
pub open spec fn spec_reachable(i: int, p: int) -> bool {
    0 <= p < spec_num_states(i + 1)
}

/// The cost of the path ending in state `q` before column `n` is added.
pub open spec fn spec_prev_cost(t: Seq<[Link; 4]>, n: int, q: int) -> int {
    if n == 0 { 0 } else { t[n - 1][q].cost as int }
}

/// The cost of the path that extends state `q` with input `bit` in column
/// `n`, given the received bit pair `bp`.
pub open spec fn spec_offer_cost(t: Seq<[Link; 4]>, n: int, bp: u8, q: int, bit: int) -> int {
    spec_prev_cost(t, n, q) + spec_hamming(bp, spec_lane_out(q as u8, bit as u8))
}

/// The link that state `q`, taking `bit`, offers for column `n` given the
/// received bit pair `bp`.
pub open spec fn spec_candidate(t: Seq<[Link; 4]>, n: int, bp: u8, q: int, bit: int) -> Link {
    Link { prev_state: q as u8, cost: spec_offer_cost(t, n, bp, q, bit) as u8 }
}

/// Entry `p` of column `n` once the first `k` states have offered their
/// links. State `p` is reached from `p / 2` and `p / 2 + 2` with input
/// `p % 2`; on equal costs the earlier offer stays.
pub open spec fn spec_partial_entry(t: Seq<[Link; 4]>, n: int, bp: u8, k: int, p: int) -> Link {
    let q1 = p / 2;
    let q2 = q1 + 2;
    let c1 = spec_candidate(t, n, bp, q1, p % 2);
    let c2 = spec_candidate(t, n, bp, q2, p % 2);
    if k <= q1 {
        spec_link_none()
    } else if k <= q2 {
        c1
    } else if c2.cost < c1.cost {
        c2
    } else {
        c1
    }
}

/// Entry `p` of the column that follows the first `n` columns of `t` when
/// the bit pair `bp` is received.
pub open spec fn spec_entry_at(t: Seq<[Link; 4]>, n: int, bp: u8, p: int) -> Link {
    spec_partial_entry(t, n, bp, spec_num_states(n), p)
}

/// The column that follows the first `n` columns of `t` when the bit pair
/// `bp` is received.
pub open spec fn spec_next_column(t: Seq<[Link; 4]>, bp: u8) -> [Link; 4] {
    [
        spec_entry_at(t, t.len() as int, bp, 0),
        spec_entry_at(t, t.len() as int, bp, 1),
        spec_entry_at(t, t.len() as int, bp, 2),
        spec_entry_at(t, t.len() as int, bp, 3),
    ]
}

/// The entries of the next column.
pub proof fn lemma_next_column_index(t: Seq<[Link; 4]>, bp: u8)
    ensures
        forall|p: int| 0 <= p < 4 ==> #[trigger] spec_next_column(t, bp)[p] == spec_entry_at(t, t.len() as int, bp, p),
{
    let col = spec_next_column(t, bp);
    assert(col[0] == spec_entry_at(t, t.len() as int, bp, 0));
    assert(col[1] == spec_entry_at(t, t.len() as int, bp, 1));
    assert(col[2] == spec_entry_at(t, t.len() as int, bp, 2));
    assert(col[3] == spec_entry_at(t, t.len() as int, bp, 3));
}

/// The trellis that pushing the bit pairs `rx` one by one builds on `t`.
pub open spec fn spec_run(t: Seq<[Link; 4]>, rx: Seq<u8>) -> Seq<[Link; 4]>
    decreases rx.len(),
{
    if rx.len() == 0 {
        t
    } else {
        let t1 = spec_run(t, rx.drop_last());
        t1.push(spec_next_column(t1, rx.last()))
    }
}

/// Entry `p` of column `i` is what the decoder builds for it.
pub open spec fn spec_entry_ok(t: Seq<[Link; 4]>, i: int, p: int) -> bool {
    if spec_reachable(i, p) {
        &&& t[i][p].cost <= 2 * (i + 1)
        &&& 0 <= t[i][p].prev_state < spec_num_states(i)
    } else {
        t[i][p] == spec_link_none()
    }
}

/// The shape every trellis of the decoder keeps: at most 127 columns, the
/// costs of reachable states bounded by two per column, and every reachable
/// state linked to a reachable state of the column before.
pub open spec fn spec_trellis_ok(t: Seq<[Link; 4]>) -> bool {
    &&& t.len() <= 127
    &&& forall|i: int, p: int| 0 <= i < t.len() && 0 <= p < 4 ==> #[trigger] spec_entry_ok(t, i, p)
}

/// `t` is the trellis that the received bit pairs `rx` build.
pub open spec fn spec_follows(t: Seq<[Link; 4]>, rx: Seq<u8>) -> bool {
    &&& t.len() == rx.len()
    &&& spec_columns_follow(t, rx)
}

/// Each column of `t` is built from the one before and the matching pair
/// of `rx`.
#[verifier::opaque]
pub open spec fn spec_columns_follow(t: Seq<[Link; 4]>, rx: Seq<u8>) -> bool {
    forall|i: int, p: int|
        0 <= i < t.len() && 0 <= p < 4 ==> #[trigger] t[i][p] == spec_entry_at(t, i, rx[i], p)
}

/// The first state of a column with the least cost.
pub open spec fn spec_start_pos(col: [Link; 4]) -> u8 {
    let m1: u8 = if col[1].cost < col[0].cost { 1 } else { 0 };
    let m2: u8 = if col[2].cost < col[m1 as int].cost { 2 } else { m1 };
    if col[3].cost < col[m2 as int].cost { 3 } else { m2 }
}

/// The state on the survivor path at column `k`, traced back from the best
/// state of the last column.
pub open spec fn spec_trace_pos(t: Seq<[Link; 4]>, k: int) -> u8
    decreases t.len() - k,
{
    if k >= t.len() - 1 {
        spec_start_pos(t[t.len() - 1])
    } else {
        t[k + 1][spec_trace_pos(t, k + 1) as int].prev_state
    }
}

/// The bits the survivor path stands for, each placed at `bit`.
pub open spec fn spec_decode_lane(t: Seq<[Link; 4]>, bit: u8) -> Seq<u8> {
    Seq::new(t.len(), |k: int| spec_state_to_bit(spec_trace_pos(t, k), bit))
}

/// `x` has at most two set bits when it is below 4, and none only when zero.
pub proof fn lemma_popcount_small(x: u8)
    ensures
        x < 4 ==> spec_popcount(x) <= 2,
        spec_popcount(x) == 0 <==> x == 0,
        0 <= spec_popcount(x) <= 8,
{
    assert(x < 4 ==> (x >> 2u8) & 1 == 0 && (x >> 3u8) & 1 == 0 && (x >> 4u8) & 1 == 0 && (x >> 5u8)
        & 1 == 0 && (x >> 6u8) & 1 == 0 && (x >> 7u8) & 1 == 0) by (bit_vector);
    assert(x < 4 ==> (x & 1) <= 1 && ((x >> 1u8) & 1) <= 1) by (bit_vector);
    assert(((x & 1) == 0 && ((x >> 1u8) & 1) == 0 && ((x >> 2u8) & 1) == 0 && ((x >> 3u8) & 1) == 0
        && ((x >> 4u8) & 1) == 0 && ((x >> 5u8) & 1) == 0 && ((x >> 6u8) & 1) == 0 && ((x >> 7u8) & 1)
        == 0) <==> x == 0) by (bit_vector);
    assert((x & 1) <= 1 && ((x >> 1u8) & 1) <= 1 && ((x >> 2u8) & 1) <= 1 && ((x >> 3u8) & 1) <= 1
        && ((x >> 4u8) & 1) <= 1 && ((x >> 5u8) & 1) <= 1 && ((x >> 6u8) & 1) <= 1 && ((x >> 7u8) & 1)
        <= 1) by (bit_vector);
}

/// Two bit pairs differ in at most two bits, and in none only when equal.
pub proof fn lemma_hamming_pairs(a: u8, b: u8)
    ensures
        a < 4 && b < 4 ==> spec_hamming(a, b) <= 2,
        spec_hamming(a, b) == 0 <==> a == b,
        0 <= spec_hamming(a, b) <= 8,
{
    assert(a < 4 && b < 4 ==> a ^ b < 4) by (bit_vector);
    assert(a ^ b == 0 <==> a == b) by (bit_vector);
    lemma_popcount_small(a ^ b);
}

/// Xor of two stretched bits.
proof fn lemma_xor_stretched(x: u8, y: u8)
    requires
        x == 0 || x == 0xFF,
        y == 0 || y == 0xFF,
    ensures
        x ^ y == (if x == y { 0u8 } else { 0xFFu8 }),
{
    assert((x == 0 || x == 0xFF) && (y == 0 || y == 0xFF) ==> x ^ y == (if x == y { 0u8 } else {
        0xFFu8
    })) by (bit_vector);
}

/// What an encoder built from a state number does on one input matches the
/// lane transition and output functions.
pub proof fn lemma_lane_encoder(state: u8, bit: u8)
    requires
        state < 4,
    ensures
        ({
            let s = spec_state_from_u8(state);
            let b = spec_stretch(bit);
            &&& spec_combine(s.1 ^ b, s.0 ^ s.1 ^ b) == spec_lane_out(state, bit)
            &&& spec_combine(b, s.0) == spec_lane_next(state, bit)
        }),
{
    let s = spec_state_from_u8(state);
    let b = spec_stretch(bit);
    assert(state < 4 ==> (state & 1 == 0 <==> state % 2 == 0)) by (bit_vector);
    assert(state < 4 ==> (state & 2 == 0 <==> state / 2 == 0)) by (bit_vector);
    assert(s.0 == (if state % 2 == 0 { 0u8 } else { 0xFFu8 }));
    assert(s.1 == (if state / 2 == 0 { 0u8 } else { 0xFFu8 }));
    assert(b == (if spec_squish(bit) == 0 { 0u8 } else { 0xFFu8 }));
    lemma_xor_stretched(s.1, b);
    lemma_xor_stretched(s.0, s.1);
    lemma_xor_stretched(s.0 ^ s.1, b);
    if spec_squish(bit) == 0 {
        if state == 0 {} else if state == 1 {} else if state == 2 {} else {}
    } else {
        if state == 0 {} else if state == 1 {} else if state == 2 {} else {}
    }
}

impl Link {
    /// The empty link.
    pub fn none() -> (r: Link)
        ensures
            r == spec_link_none(),
    {
        Link { prev_state: 255, cost: 255 }
    }

    /// Returns the two links that `state` offers on receiving `bit_pair`
    /// (for input 0 and for input 1), each with the state it leads to.
    pub fn next(state: u8, bit_pair: u8, prev_cost: u8) -> (r: [(Self, u8); 2])
        requires
            state < 4,
            prev_cost + spec_hamming(bit_pair, spec_lane_out(state, 0)) <= 255,
            prev_cost + spec_hamming(bit_pair, spec_lane_out(state, 1)) <= 255,
        ensures
            r[0].0 == (Link {
                prev_state: state,
                cost: (prev_cost + spec_hamming(bit_pair, spec_lane_out(state, 0))) as u8,
            }),
            r[0].1 == spec_lane_next(state, 0),
            r[1].0 == (Link {
                prev_state: state,
                cost: (prev_cost + spec_hamming(bit_pair, spec_lane_out(state, 1))) as u8,
            }),
            r[1].1 == spec_lane_next(state, 1),
    {
        [Self::generate(state, bit_pair, prev_cost, 0), Self::generate(state, bit_pair, prev_cost, 1)]
    }

    /// Keeps whichever of `self` and `other` is cheaper; on equal costs
    /// `self` stays.
    pub fn minimize_cost(&mut self, other: Self)
        ensures
            *final(self) == (if old(self).cost > other.cost { other } else { *old(self) }),
    {
        if self.cost > other.cost {
            *self = other;
        }
    }

    /// The link that `state` offers on input `bit`, and the state it leads to.
    pub fn generate(state: u8, bit_pair: u8, prev_cost: u8, bit: u8) -> (r: (Self, u8))
        requires
            state < 4,
            prev_cost + spec_hamming(bit_pair, spec_lane_out(state, bit)) <= 255,
        ensures
            r.0 == (Link {
                prev_state: state,
                cost: (prev_cost + spec_hamming(bit_pair, spec_lane_out(state, bit))) as u8,
            }),
            r.1 == spec_lane_next(state, bit),
    {
        let mut encoder: EncoderState<u8> = EncoderState::from_state_number(state);
        let hypothetical_bit_pair = encoder.push_return_bitpair(stretch(bit));
        proof {
            lemma_lane_encoder(state, bit);
        }
        let dist = Self::hamming_dist(bit_pair, hypothetical_bit_pair);
        (Self { prev_state: state, cost: prev_cost + dist }, u8::from(encoder))
    }

    /// The number of bits in which `a` and `b` differ.
    pub fn hamming_dist(a: u8, b: u8) -> (r: u8)
        ensures
            r == spec_hamming(a, b),
    {
        let x = a ^ b;
        proof {
            lemma_popcount_small(x);
        }
        assert((x & 1) <= 1 && ((x >> 1u8) & 1) <= 1 && ((x >> 2u8) & 1) <= 1 && ((x >> 3u8) & 1) <= 1
            && ((x >> 4u8) & 1) <= 1 && ((x >> 5u8) & 1) <= 1 && ((x >> 6u8) & 1) <= 1 && ((x >> 7u8)
            & 1) <= 1) by (bit_vector);
        (x & 1) + ((x >> 1u8) & 1) + ((x >> 2u8) & 1) + ((x >> 3u8) & 1) + ((x >> 4u8) & 1) + ((x
            >> 5u8) & 1) + ((x >> 6u8) & 1) + ((x >> 7u8) & 1)
    }
}


/// A decoder for a single bit lane. Each column of the trellis holds, for
/// each of the four encoder states, the cheapest link reaching it.
#[derive(Debug)]
pub struct BitDecoderState {
    trellis: Vec<[Link; 4]>,
}

impl View for BitDecoderState {
    type V = Seq<[Link; 4]>;

    closed spec fn view(&self) -> Seq<[Link; 4]> {
        self.trellis@
    }
}

/// Keeping the cheaper of two links, the first on equal costs.
pub open spec fn spec_minimize(a: Link, b: Link) -> Link {
    if a.cost > b.cost { b } else { a }
}

/// One state offering its links moves the partial column one step on.
proof fn lemma_partial_step(t: Seq<[Link; 4]>, n: int, bp: u8, k: int, p: int)
    requires
        0 <= k < spec_num_states(n),
        0 <= p < 4,
        forall|q: int, b: int| 0 <= q < spec_num_states(n) && 0 <= b < 2 ==>
            #[trigger] spec_offer_cost(t, n, bp, q, b) < 255,
    ensures
        p == spec_lane_next(k as u8, 0) ==> spec_partial_entry(t, n, bp, k + 1, p)
            == spec_minimize(spec_partial_entry(t, n, bp, k, p), spec_candidate(t, n, bp, k, 0)),
        p == spec_lane_next(k as u8, 1) ==> spec_partial_entry(t, n, bp, k + 1, p)
            == spec_minimize(spec_partial_entry(t, n, bp, k, p), spec_candidate(t, n, bp, k, 1)),
        p != spec_lane_next(k as u8, 0) && p != spec_lane_next(k as u8, 1) ==>
            spec_partial_entry(t, n, bp, k + 1, p) == spec_partial_entry(t, n, bp, k, p),
{
    if p / 2 < spec_num_states(n) {
        assert(spec_offer_cost(t, n, bp, p / 2, p % 2) < 255);
    }
    if p / 2 + 2 < spec_num_states(n) {
        assert(spec_offer_cost(t, n, bp, p / 2 + 2, p % 2) < 255);
    }
}

/// The start state is a cheapest state of the column, and the first one.
pub proof fn lemma_start_pos_min(col: [Link; 4])
    ensures
        spec_start_pos(col) < 4,
        forall|i: int| 0 <= i < 4 ==> col[spec_start_pos(col) as int].cost <= #[trigger] col[i].cost,
        forall|i: int| 0 <= i < spec_start_pos(col) ==> col[spec_start_pos(col) as int].cost < #[trigger] col[i].cost,
{
}

/// Every state on the survivor path of a well-shaped trellis is reachable in
/// its column.
pub proof fn lemma_trace_reachable(t: Seq<[Link; 4]>, k: int)
    requires
        spec_trellis_ok(t),
        0 <= k < t.len(),
    ensures
        spec_reachable(k, spec_trace_pos(t, k) as int),
    decreases t.len() - k,
{
    if k >= t.len() - 1 {
        let col = t[t.len() - 1];
        lemma_start_pos_min(col);
        assert(spec_entry_ok(t, t.len() - 1, 0));
        assert(spec_entry_ok(t, t.len() - 1, spec_start_pos(col) as int));
    } else {
        lemma_trace_reachable(t, k + 1);
        assert(spec_entry_ok(t, k + 1, spec_trace_pos(t, k + 1) as int));
    }
}

/// Bit `j` of a lane's input, 0 before the start.
pub open spec fn spec_lane_bit(b: Seq<u8>, j: int) -> u8 {
    if 0 <= j < b.len() { b[j] } else { 0 }
}

/// The state of a lane encoder, started in state 0, after the first `k`
/// inputs of `b`.
pub open spec fn spec_true_state(b: Seq<u8>, k: int) -> u8 {
    (spec_lane_bit(b, k - 1) + 2 * spec_lane_bit(b, k - 2)) as u8
}

/// The bit pairs a lane encoder, started in state 0, emits for the bits `b`.
pub open spec fn spec_lane_rx(b: Seq<u8>) -> Seq<u8> {
    Seq::new(b.len(), |k: int| spec_lane_out(spec_true_state(b, k), b[k]))
}

/// Every entry of `b` is a bit.
pub open spec fn spec_is_bits(b: Seq<u8>) -> bool {
    forall|i: int| 0 <= i < b.len() ==> #[trigger] b[i] < 2
}

/// The received pair is never more than 3 and an offered path costs at most
/// two more than its predecessor, so nothing overflows.
proof fn lemma_offer_bounded(t: Seq<[Link; 4]>, n: int, bp: u8, q: int, bit: int)
    requires
        spec_trellis_ok(t),
        0 <= n <= t.len(),
        n < 127,
        bp < 4,
        0 <= q < spec_num_states(n),
        0 <= bit < 2,
    ensures
        0 <= spec_offer_cost(t, n, bp, q, bit) <= 2 * (n + 1),
        spec_candidate(t, n, bp, q, bit).cost == spec_offer_cost(t, n, bp, q, bit),
{
    lemma_hamming_pairs(bp, spec_lane_out(q as u8, bit as u8));
    if n > 0 {
        assert(spec_entry_ok(t, n - 1, q));
    }
}

/// One column on noise-free input: if the predecessor column has exactly one
/// free state `ts`, the column has exactly one free state, the one `ts` goes
/// to on the true input `bk`, and it links back to `ts`.
#[verifier::spinoff_prover]
#[verifier::rlimit(40)]
proof fn lemma_free_column(t: Seq<[Link; 4]>, k: int, bp: u8, col: [Link; 4], ts: u8, bk: u8)
    requires
        spec_trellis_ok(t),
        0 <= k < t.len(),
        k < 127,
        forall|p: int| 0 <= p < 4 ==> #[trigger] col[p] == spec_entry_at(t, k, bp, p),
        bk < 2,
        0 <= ts < spec_num_states(k),
        bp == spec_lane_out(ts, bk),
        k > 0 ==> t[k - 1][ts as int].cost == 0,
        k > 0 ==> forall|q: int| 0 <= q < 4 && #[trigger] t[k - 1][q].cost == 0 ==> q == ts,
    ensures
        col[spec_lane_next(ts, bk) as int].cost == 0,
        col[spec_lane_next(ts, bk) as int].prev_state == ts,
        forall|p: int| 0 <= p < 4 && #[trigger] col[p].cost == 0 ==> p == spec_lane_next(ts, bk),
{
    let tn = spec_lane_next(ts, bk);
    assert(bp < 4);
    assert forall|q: int, bit: int| 0 <= q < spec_num_states(k) && 0 <= bit < 2 implies
        #[trigger] spec_candidate(t, k, bp, q, bit).cost == spec_offer_cost(t, k, bp, q, bit)
        && spec_offer_cost(t, k, bp, q, bit) <= 2 * (k + 1) by {
        lemma_offer_bounded(t, k, bp, q, bit);
    }
    lemma_hamming_pairs(bp, spec_lane_out(ts, bk));
    assert(spec_offer_cost(t, k, bp, ts as int, bk as int) == 0);
    assert(col[tn as int] == spec_entry_at(t, k, bp, tn as int));
    assert forall|p: int| 0 <= p < 4 && #[trigger] col[p].cost == 0 implies p == tn by {
        assert(col[p] == spec_entry_at(t, k, bp, p));
        let e = col[p];
        assert(e != spec_link_none());
        let q = e.prev_state as int;
        assert(q == p / 2 || q == p / 2 + 2);
        assert(q < spec_num_states(k));
        lemma_offer_bounded(t, k, bp, q, p % 2);
        lemma_hamming_pairs(bp, spec_lane_out(q as u8, (p % 2) as u8));
        if k > 0 {
            assert(t[k - 1][q].cost == 0);
        }
        assert(q == ts);
        assert(spec_lane_out(ts, (p % 2) as u8) == spec_lane_out(ts, bk));
    }
}

/// Noise-free input: along the encoder's own path every link costs nothing,
/// and no other state of a column costs nothing.
proof fn lemma_zero_path(t: Seq<[Link; 4]>, b: Seq<u8>, k: int)
    requires
        spec_is_bits(b),
        spec_trellis_ok(t),
        spec_follows(t, spec_lane_rx(b)),
        0 <= k < t.len(),
    ensures
        t[k][spec_true_state(b, k + 1) as int].cost == 0,
        forall|p: int| 0 <= p < 4 && #[trigger] t[k][p].cost == 0 ==> p == spec_true_state(b, k + 1),
        t[k][spec_true_state(b, k + 1) as int].prev_state == spec_true_state(b, k),
    decreases k,
{
    let rx = spec_lane_rx(b);
    let ts = spec_true_state(b, k);
    assert(b[k] < 2);
    if k >= 1 {
        assert(b[k - 1] < 2);
        lemma_zero_path(t, b, k - 1);
    }
    if k >= 2 {
        assert(b[k - 2] < 2);
    }
    assert(ts < spec_num_states(k));
    assert(spec_lane_next(ts, b[k]) == spec_true_state(b, k + 1));
    assert(forall|p: int| 0 <= p < 4 ==> #[trigger] t[k][p] == spec_entry_at(t, k, rx[k], p)) by {
        reveal(spec_columns_follow);
    }
    lemma_free_column(t, k, rx[k], t[k], ts, b[k]);
}

/// Decoding the pairs a lane encoder emitted gives back its input bits.
pub proof fn lemma_lane_round_trip(t: Seq<[Link; 4]>, b: Seq<u8>, bit: u8)
    requires
        spec_is_bits(b),
        spec_trellis_ok(t),
        spec_follows(t, spec_lane_rx(b)),
        b.len() >= 1,
    ensures
        spec_decode_lane(t, bit) == Seq::new(b.len(), |k: int| if b[k] == 1 { bit } else { 0u8 }),
{
    let n = t.len();
    assert forall|k: int| 0 <= k < n implies #[trigger] spec_trace_pos(t, k) == spec_true_state(b, k + 1) by {
        lemma_trace_true(t, b, k);
    }
    assert forall|k: int| 0 <= k < n implies spec_state_to_bit(spec_trace_pos(t, k), bit) == (if b[k] == 1 { bit } else { 0u8 }) by {
        assert(b[k] < 2);
        if k >= 1 {
            assert(b[k - 1] < 2);
        }
    }
    assert(spec_decode_lane(t, bit) =~= Seq::new(b.len(), |k: int| if b[k] == 1 { bit } else { 0u8 }));
}

/// On noise-free input the survivor path is the encoder's own path.
proof fn lemma_trace_true(t: Seq<[Link; 4]>, b: Seq<u8>, k: int)
    requires
        spec_is_bits(b),
        spec_trellis_ok(t),
        spec_follows(t, spec_lane_rx(b)),
        0 <= k < t.len(),
    ensures
        spec_trace_pos(t, k) == spec_true_state(b, k + 1),
    decreases t.len() - k,
{
    if k >= t.len() - 1 {
        let col = t[t.len() - 1];
        lemma_zero_path(t, b, k);
        lemma_start_pos_min(col);
        let sp = spec_start_pos(col) as int;
        assert(col[sp].cost <= col[spec_true_state(b, k + 1) as int].cost);
    } else {
        lemma_trace_true(t, b, k + 1);
        lemma_zero_path(t, b, k + 1);
    }
}

/// Pushing one more bit pair extends the received sequence the trellis
/// follows.
pub proof fn lemma_follows_push(t: Seq<[Link; 4]>, t2: Seq<[Link; 4]>, rx: Seq<u8>, bp: u8)
    requires
        spec_follows(t, rx),
        t2.len() == t.len() + 1,
        t2.take(t.len() as int) == t,
        t2.last() == spec_next_column(t, bp),
    ensures
        spec_follows(t2, rx.push(bp)),
{
    reveal(spec_columns_follow);
    lemma_next_column_index(t, bp);
    let n = t.len() as int;
    assert forall|i: int, p: int| 0 <= i < t2.len() && 0 <= p < 4 implies #[trigger] t2[i][p] == spec_entry_at(t2, i, rx.push(bp)[i], p) by {
        if i < n {
            assert(t2[i] == t[i]);
            if i > 0 {
                assert(t2[i - 1] == t[i - 1]);
            }
            assert(t[i][p] == spec_entry_at(t, i, rx[i], p));
        } else {
            assert(t2[i] == t2.last());
            assert(t2.last()[p] == spec_entry_at(t, n, bp, p));
            if n > 0 {
                assert(t2[n - 1] == t[n - 1]);
            }
            assert(spec_entry_at(t2, n, bp, p) == spec_entry_at(t, n, bp, p));
        }
    }
}

/// Adding the column that a received bit pair builds keeps the trellis in
/// shape.
pub proof fn lemma_next_column_ok(t: Seq<[Link; 4]>, bp: u8)
    requires
        spec_trellis_ok(t),
        t.len() < 127,
        bp < 4,
    ensures
        spec_trellis_ok(t.push(spec_next_column(t, bp))),
{
    let n = t.len() as int;
    let t2 = t.push(spec_next_column(t, bp));
    assert forall|i: int, p: int| 0 <= i < t2.len() && 0 <= p < 4 implies #[trigger] spec_entry_ok(t2, i, p) by {
        if i < n {
            assert(t2[i] == t[i]);
            assert(spec_entry_ok(t, i, p));
        } else {
            lemma_next_column_index(t, bp);
            assert(t2[n][p] == spec_entry_at(t, n, bp, p));
            if p / 2 < spec_num_states(n) {
                lemma_offer_bounded(t, n, bp, p / 2, p % 2);
            }
            if p / 2 + 2 < spec_num_states(n) {
                lemma_offer_bounded(t, n, bp, p / 2 + 2, p % 2);
            }
        }
    }
}

/// Building a trellis from scratch keeps it in shape and makes it follow the
/// pairs it was built from.
pub proof fn lemma_run_follows(rx: Seq<u8>)
    requires
        rx.len() <= 127,
        forall|i: int| 0 <= i < rx.len() ==> #[trigger] rx[i] < 4,
    ensures
        spec_trellis_ok(spec_run(Seq::empty(), rx)),
        spec_follows(spec_run(Seq::empty(), rx), rx),
    decreases rx.len(),
{
    if rx.len() == 0 {
        reveal(spec_columns_follow);
    } else {
        let rx0 = rx.drop_last();
        lemma_run_follows(rx0);
        let t = spec_run(Seq::empty(), rx0);
        let t2 = spec_run(Seq::empty(), rx);
        assert(t2 == t.push(spec_next_column(t, rx.last())));
        lemma_next_column_ok(t, rx.last());
        assert(t2.take(t.len() as int) =~= t);
        lemma_follows_push(t, t2, rx0, rx.last());
        assert(rx0.push(rx.last()) =~= rx);
    }
}

/// The number of bit errors between the received pairs `rx` and what a lane
/// encoder started in state 0 sends for the input bits `b` (the first
/// `b.len()` pairs).
pub open spec fn spec_path_dist(b: Seq<u8>, rx: Seq<u8>) -> int
    decreases b.len(),
{
    if b.len() == 0 {
        0
    } else {
        spec_path_dist(b.drop_last(), rx) + spec_hamming(
            rx[b.len() - 1],
            spec_lane_out(spec_true_state(b, b.len() - 1), b.last()),
        )
    }
}

/// The input bits of the path that the links of `t` trace back from state
/// `p` of column `k`.
pub open spec fn spec_survivor(t: Seq<[Link; 4]>, k: int, p: int) -> Seq<u8>
    decreases k + 1,
{
    if k < 0 {
        Seq::empty()
    } else {
        spec_survivor(t, k - 1, t[k][p].prev_state as int).push((p % 2) as u8)
    }
}

/// The input bits the decoder settles on: the lowest bit of each state on the
/// path traced back from the cheapest end state.
pub open spec fn spec_decoded_bits(t: Seq<[Link; 4]>) -> Seq<u8> {
    Seq::new(t.len(), |k: int| (spec_trace_pos(t, k) % 2) as u8)
}

/// The encoder state after the first `k` bits does not depend on later bits.
proof fn lemma_true_state_prefix(b: Seq<u8>, k: int)
    requires
        b.len() >= 1,
        0 <= k <= b.len() - 1,
    ensures
        spec_true_state(b.drop_last(), k) == spec_true_state(b, k),
{
}

/// Entry `p` of column `k` is the cheaper of the links offered by its
/// reachable predecessors (`p / 2` and `p / 2 + 2`, taking input `p % 2`).
proof fn lemma_entry_is_best(t: Seq<[Link; 4]>, rx: Seq<u8>, k: int, p: int)
    requires
        spec_trellis_ok(t),
        spec_follows(t, rx),
        forall|i: int| 0 <= i < rx.len() ==> #[trigger] rx[i] < 4,
        0 <= k < t.len(),
        spec_reachable(k, p),
    ensures
        ({
            let e = t[k][p];
            let q = e.prev_state as int;
            &&& q == p / 2 || q == p / 2 + 2
            &&& q < spec_num_states(k)
            &&& e.cost == spec_prev_cost(t, k, q) + spec_hamming(rx[k], spec_lane_out(q as u8, (p % 2) as u8))
            &&& forall|q2: int|
                (q2 == p / 2 || q2 == p / 2 + 2) && q2 < spec_num_states(k) ==> e.cost <= #[trigger] spec_prev_cost(t, k, q2)
                    + spec_hamming(rx[k], spec_lane_out(q2 as u8, (p % 2) as u8))
        }),
{
    assert(t[k][p] == spec_entry_at(t, k, rx[k], p)) by {
        reveal(spec_columns_follow);
    }
    assert(rx[k] < 4);
    assert(p / 2 < spec_num_states(k));
    lemma_offer_bounded(t, k, rx[k], p / 2, p % 2);
    if p / 2 + 2 < spec_num_states(k) {
        lemma_offer_bounded(t, k, rx[k], p / 2 + 2, p % 2);
    }
}

/// Every reachable entry of the trellis costs exactly the bit errors of the
/// path its links trace back: that path is a path of the encoder, from state
/// 0, ending in the entry's state.
pub proof fn lemma_survivor_cost(t: Seq<[Link; 4]>, rx: Seq<u8>, k: int, p: int)
    requires
        spec_trellis_ok(t),
        spec_follows(t, rx),
        forall|i: int| 0 <= i < rx.len() ==> #[trigger] rx[i] < 4,
        0 <= k < t.len(),
        spec_reachable(k, p),
    ensures
        spec_survivor(t, k, p).len() == k + 1,
        spec_is_bits(spec_survivor(t, k, p)),
        spec_true_state(spec_survivor(t, k, p), k + 1) == p,
        spec_path_dist(spec_survivor(t, k, p), rx) == t[k][p].cost,
    decreases k,
{
    lemma_entry_is_best(t, rx, k, p);
    let q = t[k][p].prev_state as int;
    let s = spec_survivor(t, k, p);
    let s1 = spec_survivor(t, k - 1, q);
    assert(s == s1.push((p % 2) as u8));
    if k > 0 {
        lemma_survivor_cost(t, rx, k - 1, q);
    } else {
        assert(s1 =~= Seq::<u8>::empty());
    }
    assert(s.len() == k + 1);
    assert(s.drop_last() =~= s1);
    assert(spec_path_dist(s, rx) == spec_path_dist(s1, rx) + spec_hamming(
        rx[k],
        spec_lane_out(spec_true_state(s, k), s.last()),
    ));
    assert(s.last() == (p % 2) as u8);
    if k > 0 {
        lemma_true_state_prefix(s, k);
        assert(spec_true_state(s, k) == spec_true_state(s1, k));
        assert(spec_true_state(s, k) as int == q);
        assert(spec_prev_cost(t, k, q) == t[k - 1][q].cost);
        assert(s1[k - 1] == (q % 2) as u8) by {
            assert(s1[k - 1] < 2);
            if k >= 2 {
                assert(s1[k - 2] < 2);
            }
        }
    } else {
        assert(s1 =~= Seq::<u8>::empty());
        assert(q == 0);
        assert(spec_true_state(s, 0) == 0);
    }
    assert(spec_is_bits(s));
}

/// No path of the encoder reaches a state more cheaply than the trellis
/// entry for it: for any input bits, the entry of the state they end in
/// costs at most their bit errors.
pub proof fn lemma_cost_lower_bound(t: Seq<[Link; 4]>, rx: Seq<u8>, b: Seq<u8>)
    requires
        spec_trellis_ok(t),
        spec_follows(t, rx),
        forall|i: int| 0 <= i < rx.len() ==> #[trigger] rx[i] < 4,
        spec_is_bits(b),
        1 <= b.len() <= t.len(),
    ensures
        t[b.len() - 1][spec_true_state(b, b.len() as int) as int].cost <= spec_path_dist(b, rx),
    decreases b.len(),
{
    let k = b.len() - 1;
    let p = spec_true_state(b, k + 1) as int;
    let q = spec_true_state(b, k) as int;
    assert(b[k] < 2);
    if k >= 1 {
        assert(b[k - 1] < 2);
    }
    if k >= 2 {
        assert(b[k - 2] < 2);
    }
    assert(spec_reachable(k, p));
    assert(q == p / 2 || q == p / 2 + 2);
    assert(q < spec_num_states(k));
    assert(p % 2 == b[k]);
    lemma_entry_is_best(t, rx, k, p);
    assert(t[k][p].cost <= spec_prev_cost(t, k, q) + spec_hamming(rx[k], spec_lane_out(q as u8, (p % 2) as u8)));
    let b1 = b.drop_last();
    assert(spec_path_dist(b, rx) == spec_path_dist(b1, rx) + spec_hamming(
        rx[k],
        spec_lane_out(spec_true_state(b, k), b.last()),
    ));
    assert(b.last() == (p % 2) as u8);
    if k >= 1 {
        lemma_cost_lower_bound(t, rx, b1);
        lemma_true_state_prefix(b, k);
        assert(spec_true_state(b1, k) == q);
        assert(spec_prev_cost(t, k, q) == t[k - 1][q].cost);
    } else {
        assert(q == 0);
        assert(spec_path_dist(b1, rx) == 0);
    }
}

/// The survivor path traced from the decoder's start state is the path the
/// decoder reads out.
proof fn lemma_trace_survivor(t: Seq<[Link; 4]>, k: int)
    requires
        t.len() >= 1,
        0 <= k < t.len(),
    ensures
        spec_survivor(t, k, spec_trace_pos(t, k) as int) == Seq::new((k + 1) as nat, |j: int| (spec_trace_pos(t, j) % 2) as u8),
    decreases k,
{
    let tp = spec_trace_pos(t, k) as int;
    let r = Seq::new((k + 1) as nat, |j: int| (spec_trace_pos(t, j) % 2) as u8);
    let sv = spec_survivor(t, k, tp);
    assert(sv == spec_survivor(t, k - 1, t[k][tp].prev_state as int).push((tp % 2) as u8));
    if k > 0 {
        lemma_trace_survivor(t, k - 1);
        assert(spec_trace_pos(t, k - 1) == t[k][tp].prev_state);
        assert(spec_survivor(t, k - 1, t[k][tp].prev_state as int) == Seq::new(k as nat, |j: int| (spec_trace_pos(t, j) % 2) as u8));
    } else {
        assert(spec_survivor(t, k - 1, t[k][tp].prev_state as int) =~= Seq::<u8>::empty());
    }
    assert(sv =~= r);
}

/// Viterbi decoding is maximum likelihood: for received bit pairs `rx`, the
/// bits the decoder reads out are input bits of the encoder, from state 0,
/// with no more bit errors against `rx` than any other input bits of the
/// same length; the lane's output holds `bit` for each one bit of them.
pub proof fn lemma_decode_max_likelihood(rx: Seq<u8>, b: Seq<u8>, bit: u8)
    requires
        1 <= rx.len() <= 127,
        forall|i: int| 0 <= i < rx.len() ==> #[trigger] rx[i] < 4,
        spec_is_bits(b),
        b.len() == rx.len(),
    ensures
        spec_is_bits(spec_decoded_bits(spec_run(Seq::empty(), rx))),
        spec_decoded_bits(spec_run(Seq::empty(), rx)).len() == rx.len(),
        spec_decode_lane(spec_run(Seq::empty(), rx), bit) == Seq::new(
            rx.len(),
            |k: int| if spec_decoded_bits(spec_run(Seq::empty(), rx))[k] == 1 { bit } else { 0u8 },
        ),
        spec_path_dist(spec_decoded_bits(spec_run(Seq::empty(), rx)), rx) <= spec_path_dist(b, rx),
{
    lemma_run_follows(rx);
    let t = spec_run(Seq::empty(), rx);
    let n = t.len() as int;
    let col = t[n - 1];
    lemma_start_pos_min(col);
    let sp = spec_start_pos(col) as int;
    assert(spec_trace_pos(t, n - 1) == sp);
    lemma_trace_reachable(t, n - 1);
    lemma_survivor_cost(t, rx, n - 1, sp);
    lemma_trace_survivor(t, n - 1);
    let d = spec_decoded_bits(t);
    assert(d =~= Seq::new(n as nat, |j: int| (spec_trace_pos(t, j) % 2) as u8));
    lemma_cost_lower_bound(t, rx, b);
    assert(spec_decode_lane(t, bit) =~= Seq::new(rx.len(), |k: int| if d[k] == 1 { bit } else { 0u8 }));
}

impl BitDecoderState {
    /// The shape every decoder keeps (see `spec_trellis_ok`).
    pub open spec fn wf(&self) -> bool {
        spec_trellis_ok(self@)
    }

    /// Creates a decoder for `capacity` bit pairs; the capacity must lie in
    /// `2..=127`.
    pub fn new(capacity: usize) -> (r: Self)
        requires
            2 <= capacity <= 127,
        ensures
            r@ == Seq::<[Link; 4]>::empty(),
            r.wf(),
    {
        Self { trellis: Vec::with_capacity(capacity) }
    }

    /// Pushes a pair of bits to be decoded. Takes bytes instead of bools for
    /// convenience: any non-zero byte counts as a set bit.
    pub fn push(&mut self, s0: u8, s1: u8)
        requires
            old(self).wf(),
            old(self)@.len() < 127,
        ensures
            final(self).wf(),
            final(self)@ == old(self)@.push(spec_next_column(old(self)@, spec_combine(s0, s1))),
    {
        let ghost t = self@;
        let ghost n = t.len() as int;
        let bit_pair = combine(s0, s1);
        proof {
            assert forall|q: int, b: int| 0 <= q < 4 && 0 <= b < 2 && 0 <= q < spec_num_states(n)
                implies #[trigger] spec_offer_cost(t, n, bit_pair, q, b) <= 2 * (n + 1) by {
                lemma_hamming_pairs(bit_pair, spec_lane_out(q as u8, b as u8));
                if n > 0 {
                    assert(spec_entry_ok(t, n - 1, q));
                }
            }
        }
        self.add_column();
        let states = self.states();
        let mut k: usize = 0;
        while k < states.len()
            invariant
                0 <= n,
                self@.len() == n + 1,
                self@.take(n) == t,
                n < 127,
                spec_trellis_ok(t),
                bit_pair == spec_combine(s0, s1),
                bit_pair < 4,
                states@.len() == spec_num_states(n),
                forall|j: int| 0 <= j < states@.len() ==> states@[j] == j,
                0 <= k <= states@.len(),
                forall|q: int, b: int| 0 <= q < 4 && 0 <= b < 2 && 0 <= q < spec_num_states(n)
                    ==> #[trigger] spec_offer_cost(t, n, bit_pair, q, b) <= 2 * (n + 1),
                forall|p: int| 0 <= p < 4 ==> #[trigger] self@[n][p] == spec_partial_entry(t, n, bit_pair, k as int, p),
            decreases states@.len() - k,
        {
            let state = states[k];
            let pc = self.prev_cost(state);
            proof {
                assert(spec_offer_cost(t, n, bit_pair, state as int, 0) <= 2 * (n + 1));
                assert(spec_offer_cost(t, n, bit_pair, state as int, 1) <= 2 * (n + 1));
            }
            proof {
                if n > 0 {
                    assert(self@[n - 1] == t[n - 1]);
                }
                assert(pc == spec_prev_cost(t, n, state as int));
            }
            let links = Link::next(state, bit_pair, pc);
            assert(links[0].0 == spec_candidate(t, n, bit_pair, k as int, 0));
            assert(links[1].0 == spec_candidate(t, n, bit_pair, k as int, 1));
            let ghost before = self@;
            self.add_link(links[0].0, links[0].1);
            let ghost middle = self@;
            self.add_link(links[1].0, links[1].1);
            proof {
                assert(before.last() == before[n]);
                assert(middle.last() == middle[n]);
                assert(self@.last() == self@[n]);
                assert(self@.drop_last() == before.drop_last());
                assert(self@.take(n) == self@.drop_last());
                assert(before.take(n) == before.drop_last());
                assert forall|p: int| 0 <= p < 4 implies #[trigger] self@[n][p] == spec_partial_entry(t, n, bit_pair, k + 1, p) by {
                    lemma_partial_step(t, n, bit_pair, k as int, p);
                }
            }
            k += 1;
        }
        proof {
            assert(self@.last() =~= spec_next_column(t, bit_pair));
            assert(self@ =~= t.push(spec_next_column(t, bit_pair)));
            assert forall|i: int, p: int| 0 <= i < self@.len() && 0 <= p < 4 implies #[trigger] spec_entry_ok(self@, i, p) by {
                if i < n {
                    assert(self@[i] == t[i]);
                    assert(spec_entry_ok(t, i, p));
                }
            }
        }
    }

    /// Outputs the decoded bits, one byte per received pair, where only the
    /// bit `bit` can be set; the trellis is used up.
    pub fn read(&mut self, bit: u8) -> (r: Vec<u8>)
        requires
            old(self).wf(),
            old(self)@.len() > 1,
        ensures
            r@ == spec_decode_lane(old(self)@, bit),
            final(self)@ == Seq::<[Link; 4]>::empty(),
            final(self).wf(),
    {
        let ans = self.read_bits(bit);
        self.trellis = Vec::new();
        ans
    }

    /// The decoded bits, one byte per received pair, where only the bit `bit`
    /// can be set.
    pub(crate) fn read_bits(&self, bit: u8) -> (r: Vec<u8>)
        requires
            self.wf(),
            self@.len() > 1,
        ensures
            r@ == spec_decode_lane(self@, bit),
    {
        let ghost t = self@;
        let n = self.len();
        let mut ans: Vec<u8> = vec![0u8; n];
        let mut pos = self.find_start_pos();
        let mut i: usize = n;
        proof {
            lemma_trace_reachable(t, n - 1);
        }
        while i > 0
            invariant
                t == self@,
                spec_trellis_ok(t),
                n == t.len(),
                i <= n,
                ans@.len() == n,
                i > 0 ==> pos == spec_trace_pos(t, i - 1),
                i > 0 ==> pos < 4,
                forall|j: int| i <= j < n ==> ans@[j] == spec_state_to_bit(spec_trace_pos(t, j), bit),
            decreases i,
        {
            i -= 1;
            ans.set(i, state_to_bit(pos, bit));
            let link = self.get_link(i, pos);
            pos = link.prev_state;
            proof {
                if i > 0 {
                    lemma_trace_reachable(t, i - 1);
                }
            }
        }
        assert(ans@ =~= spec_decode_lane(t, bit));
        ans
    }

    fn add_column(&mut self)
        ensures
            final(self)@ == old(self)@.push([spec_link_none(), spec_link_none(), spec_link_none(), spec_link_none()]),
    {
        self.trellis.push([Link::none(), Link::none(), Link::none(), Link::none()]);
    }

    /// The states to extend, given that the newest column has been added.
    fn states(&self) -> (r: Vec<u8>)
        requires
            self@.len() >= 1,
        ensures
            r@.len() == spec_num_states(self@.len() - 1),
            forall|j: int| 0 <= j < r@.len() ==> r@[j] == j,
    {
        if self.len() == 1 {
            vec![0]
        } else if self.len() == 2 {
            vec![0, 1]
        } else {
            vec![0, 1, 2, 3]
        }
    }

    fn len(&self) -> (r: usize)
        ensures
            r == self@.len(),
    {
        self.trellis.len()
    }

    fn get_link(&self, index: usize, pos: u8) -> (r: Link)
        requires
            index < self@.len(),
            pos < 4,
        ensures
            r == self@[index as int][pos as int],
    {
        self.trellis[index][pos as usize]
    }

    fn get_last_link(&self, pos: u8) -> (r: Link)
        requires
            self@.len() > 0,
            pos < 4,
        ensures
            r == self@.last()[pos as int],
    {
        self.trellis[self.trellis.len() - 1][pos as usize]
    }

    fn add_link(&mut self, new_link: Link, pos: u8)
        requires
            old(self)@.len() > 0,
            pos < 4,
        ensures
            final(self)@.len() == old(self)@.len(),
            final(self)@.drop_last() == old(self)@.drop_last(),
            forall|p: int| 0 <= p < 4 ==> #[trigger] final(self)@.last()[p] == if p == pos {
                spec_minimize(old(self)@.last()[p], new_link)
            } else {
                old(self)@.last()[p]
            },
    {
        let last = self.trellis.len() - 1;
        let mut column = self.trellis[last];
        let mut link = column[pos as usize];
        link.minimize_cost(new_link);
        column[pos as usize] = link;
        self.trellis.set(last, column);
    }

    fn find_start_pos(&self) -> (r: u8)
        requires
            self@.len() > 0,
        ensures
            r == spec_start_pos(self@.last()),
    {
        let column = self.trellis[self.trellis.len() - 1];
        let mut best: u8 = 0;
        let mut i: u8 = 1;
        while i < 4
            invariant
                1 <= i <= 4,
                column == self@.last(),
                best < 4,
                i == 2 ==> best == (if column[1].cost < column[0].cost { 1u8 } else { 0u8 }),
                i == 3 ==> best == ({
                    let m1: u8 = if column[1].cost < column[0].cost { 1 } else { 0 };
                    if column[2].cost < column[m1 as int].cost { 2u8 } else { m1 }
                }),
                i == 4 ==> best == spec_start_pos(column),
                i == 1 ==> best == 0,
            decreases 4 - i,
        {
            if column[i as usize].cost < column[best as usize].cost {
                best = i;
            }
            i += 1;
        }
        best
    }

    /// The cost of the path ending in `pos` before the newest column.
    fn prev_cost(&self, pos: u8) -> (r: u8)
        requires
            self@.len() >= 1,
            pos < 4,
        ensures
            r == spec_prev_cost(self@, self@.len() - 1, pos as int),
    {
        if self.len() == 1 {
            0
        } else {
            self.get_link(self.len() - 2, pos).cost
        }
    }
}

} // verus!
