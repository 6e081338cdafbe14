//! Byte-wide Viterbi decoding: eight single-bit decoders side by side.
pub mod single_bit_decode;
pub mod single_bit_rc_decode;

use vstd::prelude::*;
use rayon::iter::{IndexedParallelIterator, IntoParallelRefMutIterator, ParallelIterator};
use crate::dsp::viterbi::common::{BIT_MASK, lemma_bit_mask, spec_bit_mask, spec_combine, spec_squish};
use crate::dsp::viterbi::encode::{EncoderState, spec_back, spec_encode};
use single_bit_rc_decode::{
    BitDecoderState as RcDecoder, PathEnd, lemma_first_paths, lemma_paths_fill, lemma_rc_lane_round_trip,
    spec_cheapest, spec_lane_values, spec_next_paths, spec_no_paths, spec_run_paths,
};
use single_bit_decode::{
    BitDecoderState, Link, lemma_lane_round_trip, lemma_next_column_ok, lemma_run_follows,
    spec_decode_lane, spec_is_bits, spec_lane_out, spec_lane_rx, spec_next_column, spec_run,
    spec_trellis_ok, spec_true_state, spec_lane_bit,
};

verus! {

/// The bit pairs that bit lane `j` receives from the byte pairs of `arr`.
pub open spec fn spec_lane_pairs(arr: Seq<u8>, j: int) -> Seq<u8> {
    Seq::new(
        arr.len() / 2,
        |k: int| spec_combine(arr[2 * k] & spec_bit_mask(j), arr[2 * k + 1] & spec_bit_mask(j)),
    )
}

/// Bit `j` of byte `i` of lanes decoded output, combined over the lanes
/// `0..=upto` with bitwise or.
pub open spec fn spec_or_lanes(lanes: Seq<Seq<u8>>, upto: int, i: int) -> u8
    decreases upto,
{
    if upto <= 0 {
        lanes[0][i]
    } else {
        spec_or_lanes(lanes, upto - 1, i) | lanes[upto][i]
    }
}

/// The bytes that eight lane trellises decode to: lane `j` supplies bit `j`.
pub open spec fn spec_decode_bytes(trellises: Seq<Seq<[Link; 4]>>) -> Seq<u8> {
    let lanes = Seq::new(8, |j: int| spec_decode_lane(trellises[j], spec_bit_mask(j)));
    Seq::new(trellises[0].len(), |i: int| spec_or_lanes(lanes, 7, i))
}

/// Bit `j` of every byte of `xs`, as 0 or 1.
pub open spec fn spec_bits_of(xs: Seq<u8>, j: int) -> Seq<u8> {
    Seq::new(xs.len(), |k: int| (xs[k] >> (j as u8)) & 1)
}

/// What one bit lane sees of a byte-wide encoder step.
proof fn lemma_pair_bits(a1: u8, a2: u8, x: u8, j: u8)
    requires
        j < 8,
    ensures
        spec_combine((a2 ^ x) & (1u8 << j), (a1 ^ a2 ^ x) & (1u8 << j)) == spec_lane_out(
            (((a1 >> j) & 1) + 2 * ((a2 >> j) & 1)) as u8,
            (x >> j) & 1,
        ),
{
    let u1 = (a1 >> j) & 1;
    let u2 = (a2 >> j) & 1;
    let ux = (x >> j) & 1;
    assert(u1 <= 1 && u2 <= 1 && ux <= 1) by (bit_vector)
        requires u1 == (a1 >> j) & 1, u2 == (a2 >> j) & 1, ux == (x >> j) & 1;
    assert(((a2 ^ x) & (1u8 << j) == 0) == ((u2 + ux) % 2 == 0)) by (bit_vector)
        requires j < 8, u2 == (a2 >> j) & 1, ux == (x >> j) & 1;
    assert(((a1 ^ a2 ^ x) & (1u8 << j) == 0) == ((u1 + u2 + ux) % 2 == 0)) by (bit_vector)
        requires j < 8, u1 == (a1 >> j) & 1, u2 == (a2 >> j) & 1, ux == (x >> j) & 1;
}

/// Lane `j` of a byte-wide encoding is the lane encoding of bit `j` of
/// every byte.
proof fn lemma_lane_pairs_of_encoding(xs: Seq<u8>, j: int)
    requires
        0 <= j < 8,
    ensures
        spec_lane_pairs(spec_encode(EncoderState(0u8, 0u8), xs), j) == spec_lane_rx(spec_bits_of(xs, j)),
{
    let st = EncoderState(0u8, 0u8);
    let enc = spec_encode(st, xs);
    let bits = spec_bits_of(xs, j);
    lemma_bit_mask(j);
    let jj = j as u8;
    assert((0u8 >> jj) & 1 == 0) by (bit_vector);
    assert forall|k: int| 0 <= k < xs.len() implies #[trigger] spec_lane_pairs(enc, j)[k] == spec_lane_rx(bits)[k] by {
        let a1 = spec_back(st, xs, k - 1);
        let a2 = spec_back(st, xs, k - 2);
        assert(enc[2 * k] == a2 ^ xs[k]);
        assert(enc[2 * k + 1] == a1 ^ a2 ^ xs[k]);
        lemma_pair_bits(a1, a2, xs[k], jj);
        assert(spec_lane_bit(bits, k - 1) == (a1 >> jj) & 1);
        assert(spec_lane_bit(bits, k - 2) == (a2 >> jj) & 1);
    }
    assert(spec_lane_pairs(enc, j) =~= spec_lane_rx(bits));
}

/// Putting the lanes back together: bit `j` of each output byte comes from
/// lane `j`.
proof fn lemma_or_lanes(lanes: Seq<Seq<u8>>, xs: Seq<u8>, i: int)
    requires
        lanes.len() == 8,
        0 <= i < xs.len(),
        forall|j: int| 0 <= j < 8 ==> #[trigger] lanes[j][i] == (if (xs[i] >> (j as u8)) & 1 == 1 {
            spec_bit_mask(j)
        } else {
            0u8
        }),
    ensures
        spec_or_lanes(lanes, 7, i) == xs[i],
{
    let x = xs[i];
    assert forall|j: int| 0 <= j < 8 implies #[trigger] lanes[j][i] == x & spec_bit_mask(j) by {
        lemma_bit_mask(j);
        let jj = j as u8;
        assert((if (x >> jj) & 1 == 1 { 1u8 << jj } else { 0u8 }) == x & (1u8 << jj)) by (bit_vector)
            requires jj < 8;
    }
    assert(lanes[0][i] == x & 1);
    assert(lanes[1][i] == x & 2);
    assert(lanes[2][i] == x & 4);
    assert(lanes[3][i] == x & 8);
    assert(lanes[4][i] == x & 16);
    assert(lanes[5][i] == x & 32);
    assert(lanes[6][i] == x & 64);
    assert(lanes[7][i] == x & 128);
    assert((x & 1) | (x & 2) | (x & 4) | (x & 8) | (x & 16) | (x & 32) | (x & 64) | (x & 128) == x)
        by (bit_vector);
    reveal_with_fuel(spec_or_lanes, 8);
}

/// Bit `j` of every byte is 0 or 1.
proof fn lemma_bits_of_are_bits(xs: Seq<u8>, j: int)
    requires
        0 <= j < 8,
    ensures
        spec_is_bits(spec_bits_of(xs, j)),
{
    let jj = j as u8;
    assert forall|k: int| 0 <= k < xs.len() implies #[trigger] spec_bits_of(xs, j)[k] < 2 by {
        let x = xs[k];
        assert((x >> jj) & 1 < 2) by (bit_vector);
    }
}

/// Round trip: encoding 2 to 127 bytes with a fresh encoder and decoding the
/// result with a fresh decoder gives the bytes back.
pub proof fn lemma_round_trip(xs: Seq<u8>)
    requires
        2 <= xs.len() <= 127,
    ensures
        spec_decode_bytes(
            Seq::new(
                8,
                |j: int| spec_run(
                    Seq::empty(),
                    spec_lane_pairs(spec_encode(EncoderState(0u8, 0u8), xs), j),
                ),
            ),
        ) == xs,
{
    let enc = spec_encode(EncoderState(0u8, 0u8), xs);
    let ts = Seq::new(8, |j: int| spec_run(Seq::empty(), spec_lane_pairs(enc, j)));
    let lanes = Seq::new(8, |j: int| spec_decode_lane(ts[j], spec_bit_mask(j)));
    assert forall|j: int| 0 <= j < 8 implies #[trigger] lanes[j] == Seq::new(
        xs.len(),
        |k: int| if spec_bits_of(xs, j)[k] == 1 { spec_bit_mask(j) } else { 0u8 },
    ) by {
        let bits = spec_bits_of(xs, j);
        lemma_bits_of_are_bits(xs, j);
        lemma_lane_pairs_of_encoding(xs, j);
        let rx = spec_lane_pairs(enc, j);
        assert forall|i: int| 0 <= i < rx.len() implies #[trigger] rx[i] < 4 by {}
        lemma_run_follows(rx);
        lemma_lane_round_trip(ts[j], bits, spec_bit_mask(j));
    }
    assert(ts[0].len() == xs.len()) by {
        lemma_lane_pairs_of_encoding(xs, 0);
        lemma_run_follows(spec_lane_pairs(enc, 0));
    }
    assert forall|i: int| 0 <= i < xs.len() implies #[trigger] spec_decode_bytes(ts)[i] == xs[i] by {
        lemma_or_lanes(lanes, xs, i);
    }
    assert(spec_decode_bytes(ts) =~= xs);
}

/// A run of `rx` adds one column per bit pair.
proof fn lemma_run_len(t: Seq<[Link; 4]>, rx: Seq<u8>)
    ensures
        spec_run(t, rx).len() == t.len() + rx.len(),
    decreases rx.len(),
{
    if rx.len() > 0 {
        lemma_run_len(t, rx.drop_last());
    }
}

/// Pushes the bit pairs of lane `b` of the byte pairs of `arr` into
/// `decoder`.
pub fn push_lane(decoder: &mut BitDecoderState, b: usize, arr: &[u8])
    requires
        b < 8,
        old(decoder).wf(),
        arr@.len() % 2 == 0,
        old(decoder)@.len() + arr@.len() / 2 <= 127,
    ensures
        final(decoder).wf(),
        final(decoder)@ == spec_run(old(decoder)@, spec_lane_pairs(arr@, b as int)),
{
    proof {
        lemma_bit_mask(b as int);
    }
    let ghost t0 = decoder@;
    let mut i: usize = 0;
    while i < arr.len()
        invariant
            0 <= i <= arr@.len(),
            i % 2 == 0,
            arr@.len() % 2 == 0,
            b < 8,
            BIT_MASK@[b as int] == spec_bit_mask(b as int),
            decoder.wf(),
            decoder@.len() == t0.len() + i / 2,
            t0.len() + arr@.len() / 2 <= 127,
            decoder@ == spec_run(t0, spec_lane_pairs(arr@, b as int).take(i as int / 2)),
        decreases arr@.len() - i,
    {
        let bit0 = arr[i] & BIT_MASK[b];
        i += 1;
        let bit1 = arr[i] & BIT_MASK[b];
        decoder.push(bit0, bit1);
        i += 1;
        proof {
            let pairs = spec_lane_pairs(arr@, b as int);
            assert(pairs.take(i as int / 2).drop_last() =~= pairs.take(i as int / 2 - 1));
            assert(pairs.take(i as int / 2).last() == pairs[i as int / 2 - 1]);
        }
    }
    assert(spec_lane_pairs(arr@, b as int).take(arr@.len() as int / 2) =~= spec_lane_pairs(arr@, b as int));
}

/// `par_iter_mut().enumerate().for_each(..)` of rayon over the eight lane
/// decoders: runs `push_lane(decoder, index, arr)` once for each decoder,
/// possibly on several threads at once; when the call returns, every
/// decoder has been through it.
#[verifier::external_body]
fn push_lanes_in_parallel(decoders: &mut [BitDecoderState; 8], arr: &[u8])
    requires
        arr@.len() % 2 == 0,
        forall|j: int| 0 <= j < 8 ==> #[trigger] old(decoders)[j].wf() && old(decoders)[j]@.len() + arr@.len() / 2 <= 127,
    ensures
        forall|j: int|
            #![trigger final(decoders)[j]]
            0 <= j < 8 ==> final(decoders)[j].wf() && final(decoders)[j]@ == spec_run(
                old(decoders)[j]@,
                spec_lane_pairs(arr@, j),
            ),
{
    decoders.par_iter_mut().enumerate().for_each(|(b, decoder)| push_lane(decoder, b, arr));
}

/// Eight single-bit decoders, one per bit of a byte.
#[derive(Debug)]
pub struct DecoderState {
    pub decoders: [BitDecoderState; 8],
}

impl DecoderState {
    /// The trellises of the eight lanes.
    pub open spec fn trellises(&self) -> Seq<Seq<[Link; 4]>> {
        Seq::new(8, |j: int| self.decoders[j]@)
    }

    /// Every lane is in shape and all lanes hold the same number of columns.
    pub open spec fn wf(&self) -> bool {
        forall|j: int| 0 <= j < 8 ==> {
            &&& #[trigger] self.decoders[j].wf()
            &&& self.decoders[j]@.len() == self.decoders[0]@.len()
        }
    }

    /// The number of byte pairs received so far.
    pub open spec fn spec_len(&self) -> int {
        self.decoders[0]@.len() as int
    }

    /// Creates a decoder for `len` bytes; `len` must lie in `2..=127`.
    pub fn new(len: usize) -> (r: Self)
        requires
            2 <= len <= 127,
        ensures
            r.wf(),
            forall|j: int| 0 <= j < 8 ==> #[trigger] r.decoders[j]@ == Seq::<[Link; 4]>::empty(),
    {
        Self {
            decoders: [
                BitDecoderState::new(len),
                BitDecoderState::new(len),
                BitDecoderState::new(len),
                BitDecoderState::new(len),
                BitDecoderState::new(len),
                BitDecoderState::new(len),
                BitDecoderState::new(len),
                BitDecoderState::new(len),
            ],
        }
    }

    /// Pushes one received pair of bytes: bit `j` of each goes to lane `j`.
    pub fn push(&mut self, byte0: u8, byte1: u8)
        requires
            old(self).wf(),
            old(self).spec_len() < 127,
        ensures
            final(self).wf(),
            forall|j: int| 0 <= j < 8 ==> #[trigger] final(self).decoders[j]@ == old(self).decoders[j]@.push(
                spec_next_column(
                    old(self).decoders[j]@,
                    spec_combine(byte0 & spec_bit_mask(j), byte1 & spec_bit_mask(j)),
                ),
            ),
    {
        let ghost old_self = *self;
        let mut i: usize = 0;
        while i < 8
            invariant
                0 <= i <= 8,
                old_self.wf(),
                old_self.spec_len() < 127,
                forall|j: int| 0 <= j < i ==> #[trigger] self.decoders[j]@ == old_self.decoders[j]@.push(
                    spec_next_column(
                        old_self.decoders[j]@,
                        spec_combine(byte0 & spec_bit_mask(j), byte1 & spec_bit_mask(j)),
                    ),
                ),
                forall|j: int| 0 <= j < i ==> #[trigger] self.decoders[j].wf(),
                forall|j: int| i <= j < 8 ==> #[trigger] self.decoders[j] == old_self.decoders[j],
            decreases 8 - i,
        {
            proof {
                lemma_bit_mask(i as int);
                assert(self.decoders[i as int] == old_self.decoders[i as int]);
                assert(old_self.decoders[i as int].wf());
            }
            self.decoders[i].push(byte0 & BIT_MASK[i], byte1 & BIT_MASK[i]);
            i += 1;
        }
        proof {
            assert forall|j: int| 0 <= j < 8 implies {
                &&& #[trigger] self.decoders[j].wf()
                &&& self.decoders[j]@.len() == self.decoders[0]@.len()
            } by {
                assert(old_self.decoders[j].wf());
            }
        }
    }

    /// Pushes the received bytes in pairs. The slice must hold whole pairs.
    pub fn push_slice(&mut self, arr: &[u8])
        requires
            old(self).wf(),
            arr@.len() % 2 == 0,
            old(self).spec_len() + arr@.len() / 2 <= 127,
        ensures
            final(self).wf(),
            forall|j: int| 0 <= j < 8 ==> #[trigger] final(self).decoders[j]@ == spec_run(
                old(self).decoders[j]@,
                spec_lane_pairs(arr@, j),
            ),
    {
        let ghost old_self = *self;
        let mut i: usize = 0;
        while i < arr.len()
            invariant
                0 <= i <= arr@.len(),
                i % 2 == 0,
                arr@.len() % 2 == 0,
                self.wf(),
                self.spec_len() == old_self.spec_len() + i / 2,
                old_self.spec_len() + arr@.len() / 2 <= 127,
                forall|j: int| 0 <= j < 8 ==> #[trigger] self.decoders[j]@ == spec_run(
                    old_self.decoders[j]@,
                    spec_lane_pairs(arr@, j).take(i as int / 2),
                ),
            decreases arr@.len() - i,
        {
            let byte0 = arr[i];
            i += 1;
            let byte1 = arr[i];
            let ghost before = *self;
            self.push(byte0, byte1);
            i += 1;
            proof {
                assert forall|j: int| 0 <= j < 8 implies #[trigger] self.decoders[j]@ == spec_run(
                    old_self.decoders[j]@,
                    spec_lane_pairs(arr@, j).take(i as int / 2),
                ) by {
                    let pairs = spec_lane_pairs(arr@, j);
                    assert(pairs.take(i as int / 2).drop_last() =~= pairs.take(i as int / 2 - 1));
                    assert(pairs.take(i as int / 2).last() == pairs[i as int / 2 - 1]);
                }
            }
        }
        proof {
            assert forall|j: int| 0 <= j < 8 implies #[trigger] spec_lane_pairs(arr@, j).take(
                arr@.len() as int / 2) == spec_lane_pairs(arr@, j) by {
                assert(spec_lane_pairs(arr@, j).take(arr@.len() as int / 2) =~= spec_lane_pairs(arr@, j));
            }
        }
    }

    /// Pushes the received bytes in pairs, the eight lanes in parallel. The
    /// slice must hold whole pairs.
    pub fn push_slice_para(&mut self, arr: &[u8])
        requires
            old(self).wf(),
            arr@.len() % 2 == 0,
            old(self).spec_len() + arr@.len() / 2 <= 127,
        ensures
            final(self).wf(),
            forall|j: int| 0 <= j < 8 ==> #[trigger] final(self).decoders[j]@ == spec_run(
                old(self).decoders[j]@,
                spec_lane_pairs(arr@, j),
            ),
    {
        let ghost old_self = *self;
        proof {
            assert forall|j: int| 0 <= j < 8 implies #[trigger] self.decoders[j].wf() && self.decoders[j]@.len()
                + arr@.len() / 2 <= 127 by {
                assert(old_self.decoders[j].wf());
            }
        }
        push_lanes_in_parallel(&mut self.decoders, arr);
        proof {
            assert forall|j: int| 0 <= j < 8 implies #[trigger] self.decoders[j]@ == spec_run(
                old_self.decoders[j]@,
                spec_lane_pairs(arr@, j),
            ) by {
                assert(self.decoders[j] == self.decoders[j]);
            }
            assert forall|j: int| 0 <= j < 8 implies {
                &&& #[trigger] self.decoders[j].wf()
                &&& self.decoders[j]@.len() == self.decoders[0]@.len()
            } by {
                assert(self.decoders[j] == self.decoders[j]);
                assert(self.decoders[0] == self.decoders[0]);
                assert(old_self.decoders[j].wf());
                assert(old_self.decoders[0].wf());
                assert(spec_lane_pairs(arr@, j).len() == spec_lane_pairs(arr@, 0).len());
                lemma_run_len(old_self.decoders[j]@, spec_lane_pairs(arr@, j));
                lemma_run_len(old_self.decoders[0]@, spec_lane_pairs(arr@, 0));
            }
        }
    }

    /// Outputs the decoded bytes, one per received pair.
    pub fn read(self) -> (r: Vec<u8>)
        requires
            self.wf(),
            self.spec_len() > 1,
        ensures
            r@ == spec_decode_bytes(self.trellises()),
    {
        let ghost lanes = Seq::new(
            8,
            |j: int| spec_decode_lane(self.trellises()[j], spec_bit_mask(j)),
        );
        proof {
            lemma_bit_mask(0);
            assert(self.decoders[0].wf());
        }
        let mut ans = self.decoders[0].read_bits(BIT_MASK[0]);
        let n = ans.len();
        let mut x: usize = 1;
        while x < 8
            invariant
                1 <= x <= 8,
                self.wf(),
                self.spec_len() > 1,
                n == self.spec_len(),
                ans@.len() == n,
                lanes == Seq::new(8, |j: int| spec_decode_lane(self.trellises()[j], spec_bit_mask(j))),
                forall|i: int| 0 <= i < n ==> #[trigger] ans@[i] == spec_or_lanes(lanes, x - 1, i),
            decreases 8 - x,
        {
            proof {
                lemma_bit_mask(x as int);
                assert(self.decoders[x as int].wf());
            }
            let new = self.decoders[x].read_bits(BIT_MASK[x]);
            let mut i: usize = 0;
            while i < n
                invariant
                    0 <= i <= n,
                    1 <= x < 8,
                    ans@.len() == n,
                    new@ == lanes[x as int],
                    new@.len() == n,
                    forall|k: int| 0 <= k < i ==> #[trigger] ans@[k] == spec_or_lanes(lanes, x as int, k),
                    forall|k: int| i <= k < n ==> #[trigger] ans@[k] == spec_or_lanes(lanes, x - 1, k),
                decreases n - i,
            {
                let v = ans[i] | new[i];
                ans.set(i, v);
                i += 1;
            }
            x += 1;
        }
        proof {
            assert(ans@ =~= spec_decode_bytes(self.trellises()));
        }
        ans
    }
}

/// The bits a lane decoder reads: those of its cheapest path.
pub open spec fn spec_rc_lane_read(ends: Seq<Option<PathEnd>>) -> Seq<u8> {
    ends[spec_cheapest(ends, 4)]->0.bits
}

/// The bytes eight shared-link lane decoders read after a run of received
/// byte pairs from nothing: bit `j` of each comes from the cheapest path of
/// lane `j`.
pub open spec fn spec_rc_decode(arr: Seq<u8>) -> Seq<u8> {
    let lanes = Seq::new(
        8,
        |j: int| spec_rc_lane_read(spec_run_paths(spec_no_paths(), spec_lane_pairs(arr, j), spec_bit_mask(j))),
    );
    Seq::new(arr.len() / 2, |i: int| spec_or_lanes(lanes, 7, i))
}

/// Round trip for the shared-link decoder: encoding at least two bytes with a
/// fresh encoder and decoding the result with fresh lane decoders gives the
/// bytes back.
pub proof fn lemma_rc_round_trip(xs: Seq<u8>)
    requires
        xs.len() >= 2,
    ensures
        spec_rc_decode(spec_encode(EncoderState(0u8, 0u8), xs)) == xs,
{
    let enc = spec_encode(EncoderState(0u8, 0u8), xs);
    let lanes = Seq::new(
        8,
        |j: int| spec_rc_lane_read(spec_run_paths(spec_no_paths(), spec_lane_pairs(enc, j), spec_bit_mask(j))),
    );
    assert forall|j: int| 0 <= j < 8 implies #[trigger] lanes[j] == Seq::new(
        xs.len(),
        |k: int| if spec_bits_of(xs, j)[k] == 1 { spec_bit_mask(j) } else { 0u8 },
    ) by {
        let bits = spec_bits_of(xs, j);
        lemma_bits_of_are_bits(xs, j);
        lemma_lane_pairs_of_encoding(xs, j);
        lemma_rc_lane_round_trip(bits, spec_bit_mask(j));
        assert(spec_lane_values(bits, spec_bit_mask(j)) =~= Seq::new(
            xs.len(),
            |k: int| if spec_bits_of(xs, j)[k] == 1 { spec_bit_mask(j) } else { 0u8 },
        ));
    }
    assert forall|i: int| 0 <= i < xs.len() implies #[trigger] spec_rc_decode(enc)[i] == xs[i] by {
        lemma_or_lanes(lanes, xs, i);
    }
    assert(spec_rc_decode(enc) =~= xs);
}

/// Eight shared-link decoders, one per bit of a byte.
#[derive(Debug)]
pub struct RcDecoderState {
    pub decoders: [RcDecoder; 8],
}

impl RcDecoderState {
    /// Every lane is in shape, decodes its own bit, and all lanes have taken
    /// the same number of pairs; after one pair states 0 and 1 have paths,
    /// after two every state has one.
    pub open spec fn wf(&self) -> bool {
        forall|j: int| 0 <= j < 8 ==> #[trigger] self.lane_wf(j)
    }

    /// Lane `j` is in shape, decodes bit `j`, has taken as many pairs as
    /// lane 0, and has paths for states 0 and 1 after one pair and for every
    /// state after two.
    pub open spec fn lane_wf(&self, j: int) -> bool {
        &&& self.decoders[j].inv()
        &&& self.decoders[j]@.bit == spec_bit_mask(j)
        &&& self.decoders[j]@.len == self.decoders[0]@.len
        &&& self.decoders[j]@.len >= 1 ==> self.decoders[j]@.ends[0] is Some && self.decoders[j]@.ends[1] is Some
        &&& self.decoders[j]@.len >= 2 ==> forall|p: int| 0 <= p < 4 ==> #[trigger] self.decoders[j]@.ends[p] is Some
    }

    /// The number of byte pairs taken.
    pub open spec fn spec_len(&self) -> nat {
        self.decoders[0]@.len
    }

    /// Creates the eight lane decoders.
    pub fn new() -> (r: Self)
        ensures
            r.wf(),
            r.spec_len() == 0,
            forall|j: int| 0 <= j < 8 ==> #[trigger] r.decoders[j]@.ends == Seq::new(4, |_p: int| None::<PathEnd>),
    {
        proof {
            lemma_bit_mask(0);
            lemma_bit_mask(1);
            lemma_bit_mask(2);
            lemma_bit_mask(3);
            lemma_bit_mask(4);
            lemma_bit_mask(5);
            lemma_bit_mask(6);
            lemma_bit_mask(7);
        }
        Self {
            decoders: [
                RcDecoder::new(BIT_MASK[0]),
                RcDecoder::new(BIT_MASK[1]),
                RcDecoder::new(BIT_MASK[2]),
                RcDecoder::new(BIT_MASK[3]),
                RcDecoder::new(BIT_MASK[4]),
                RcDecoder::new(BIT_MASK[5]),
                RcDecoder::new(BIT_MASK[6]),
                RcDecoder::new(BIT_MASK[7]),
            ],
        }
    }

    /// Takes one received pair of bytes: bit `j` of each goes to lane `j`.
    pub fn push(&mut self, byte0: u8, byte1: u8)
        requires
            old(self).wf(),
            old(self).spec_len() < 0x7fff_fffe,
        ensures
            final(self).wf(),
            final(self).spec_len() == old(self).spec_len() + 1,
            forall|j: int| 0 <= j < 8 ==> #[trigger] final(self).decoders[j]@.ends == spec_next_paths(
                old(self).decoders[j]@.ends,
                spec_combine(byte0 & spec_bit_mask(j), byte1 & spec_bit_mask(j)),
                spec_bit_mask(j),
            ),
    {
        let ghost old_self = *self;
        let mut i: usize = 0;
        while i < 8
            invariant
                0 <= i <= 8,
                old_self.wf(),
                old_self.spec_len() < 0x7fff_fffe,
                forall|j: int| 0 <= j < i ==> #[trigger] self.decoders[j]@ == (single_bit_rc_decode::RcLaneView {
                    ends: spec_next_paths(
                        old_self.decoders[j]@.ends,
                        spec_combine(byte0 & spec_bit_mask(j), byte1 & spec_bit_mask(j)),
                        spec_bit_mask(j),
                    ),
                    bit: spec_bit_mask(j),
                    len: old_self.spec_len() + 1,
                }),
                forall|j: int| 0 <= j < i ==> #[trigger] self.decoders[j].inv(),
                forall|j: int| i <= j < 8 ==> #[trigger] self.decoders[j] == old_self.decoders[j],
            decreases 8 - i,
        {
            proof {
                lemma_bit_mask(i as int);
                assert(self.decoders[i as int] == old_self.decoders[i as int]);
                assert(old_self.lane_wf(i as int));
            }
            self.decoders[i].push(byte0 & BIT_MASK[i], byte1 & BIT_MASK[i]);
            i += 1;
        }
        proof {
            assert forall|j: int| 0 <= j < 8 implies #[trigger] self.lane_wf(j) by {
                lemma_bit_mask(j);
                let bp = spec_combine(byte0 & spec_bit_mask(j), byte1 & spec_bit_mask(j));
                let e = old_self.decoders[j]@.ends;
                assert(old_self.lane_wf(j));
                assert(self.decoders[0]@.len == old_self.spec_len() + 1);
                if old_self.spec_len() == 0 {
                    old_self.decoders[j].lemma_inv_view();
                    assert(e =~= Seq::new(4, |_p: int| None::<PathEnd>));
                    lemma_first_paths(bp, spec_bit_mask(j));
                } else {
                    lemma_paths_fill(e, bp, spec_bit_mask(j));
                }
            }
            assert(self.wf());
        }
    }

    /// Takes the received bytes in pairs. The slice must hold whole pairs.
    pub fn push_slice(&mut self, arr: &[u8])
        requires
            old(self).wf(),
            arr@.len() % 2 == 0,
            old(self).spec_len() + arr@.len() / 2 < 0x7fff_fffe,
        ensures
            final(self).wf(),
            final(self).spec_len() == old(self).spec_len() + arr@.len() / 2,
            forall|j: int| 0 <= j < 8 ==> #[trigger] final(self).decoders[j]@.ends == spec_run_paths(
                old(self).decoders[j]@.ends,
                spec_lane_pairs(arr@, j),
                spec_bit_mask(j),
            ),
    {
        let ghost old_self = *self;
        let mut i: usize = 0;
        while i < arr.len()
            invariant
                0 <= i <= arr@.len(),
                i % 2 == 0,
                arr@.len() % 2 == 0,
                self.wf(),
                self.spec_len() == old_self.spec_len() + i / 2,
                old_self.spec_len() + arr@.len() / 2 < 0x7fff_fffe,
                forall|j: int| 0 <= j < 8 ==> #[trigger] self.decoders[j]@.ends == spec_run_paths(
                    old_self.decoders[j]@.ends,
                    spec_lane_pairs(arr@, j).take(i as int / 2),
                    spec_bit_mask(j),
                ),
            decreases arr@.len() - i,
        {
            let byte0 = arr[i];
            i += 1;
            let byte1 = arr[i];
            self.push(byte0, byte1);
            i += 1;
            proof {
                assert forall|j: int| 0 <= j < 8 implies #[trigger] self.decoders[j]@.ends == spec_run_paths(
                    old_self.decoders[j]@.ends,
                    spec_lane_pairs(arr@, j).take(i as int / 2),
                    spec_bit_mask(j),
                ) by {
                    let pairs = spec_lane_pairs(arr@, j);
                    assert(pairs.take(i as int / 2).drop_last() =~= pairs.take(i as int / 2 - 1));
                    assert(pairs.take(i as int / 2).last() == pairs[i as int / 2 - 1]);
                }
            }
        }
        proof {
            assert forall|j: int| 0 <= j < 8 implies #[trigger] spec_lane_pairs(arr@, j).take(
                arr@.len() as int / 2) == spec_lane_pairs(arr@, j) by {
                assert(spec_lane_pairs(arr@, j).take(arr@.len() as int / 2) =~= spec_lane_pairs(arr@, j));
            }
        }
    }

    /// The decoded bytes, one per pair taken: bit `j` of each comes from the
    /// cheapest path of lane `j`.
    pub fn read(self) -> (r: Vec<u8>)
        requires
            self.wf(),
            self.spec_len() >= 2,
        ensures
            r@ == Seq::new(
                self.spec_len(),
                |i: int| spec_or_lanes(
                    Seq::new(8, |j: int| spec_rc_lane_read(self.decoders[j]@.ends)),
                    7,
                    i,
                ),
            ),
    {
        let ghost lanes = Seq::new(8, |j: int| spec_rc_lane_read(self.decoders[j]@.ends));
        proof {
            assert(self.lane_wf(0));
        }
        let mut ans = self.decoders[0].read();
        let n = ans.len();
        let mut x: usize = 1;
        while x < 8
            invariant
                1 <= x <= 8,
                self.wf(),
                self.spec_len() >= 2,
                n == self.spec_len(),
                ans@.len() == n,
                lanes == Seq::new(8, |j: int| spec_rc_lane_read(self.decoders[j]@.ends)),
                forall|i: int| 0 <= i < n ==> #[trigger] ans@[i] == spec_or_lanes(lanes, x - 1, i),
            decreases 8 - x,
        {
            proof {
                assert(self.lane_wf(x as int));
            }
            let new = self.decoders[x].read();
            let mut i: usize = 0;
            while i < n
                invariant
                    0 <= i <= n,
                    1 <= x < 8,
                    ans@.len() == n,
                    new@ == lanes[x as int],
                    new@.len() == n,
                    forall|k: int| 0 <= k < i ==> #[trigger] ans@[k] == spec_or_lanes(lanes, x as int, k),
                    forall|k: int| i <= k < n ==> #[trigger] ans@[k] == spec_or_lanes(lanes, x - 1, k),
                decreases n - i,
            {
                let v = ans[i] | new[i];
                ans.set(i, v);
                i += 1;
            }
            x += 1;
        }
        proof {
            assert(ans@ =~= Seq::new(self.spec_len(), |i: int| spec_or_lanes(lanes, 7, i)));
        }
        ans
    }
}

} // verus!
