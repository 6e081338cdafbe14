//! A single bit lane Viterbi decoder that keeps, for each encoder state,
//! only the cheapest path reaching it, as a chain of shared links.
use vstd::prelude::*;
use std::rc::Rc;
use crate::dsp::viterbi::common::{combine, spec_combine, spec_stretch, stretch};
use crate::dsp::viterbi::encode::{EncoderState, spec_state_from_u8};
use super::single_bit_decode::{
    lemma_hamming_pairs, lemma_lane_encoder, lemma_popcount_small, spec_hamming, spec_is_bits, spec_lane_next,
    spec_lane_out, spec_lane_rx, spec_true_state,
};

verus! {

/// The encoder state (as a two-bit number) after `bit` enters an encoder in
/// state `state`.
pub open spec fn spec_rc_state(state: u8, bit: u8) -> u8 {
    spec_combine(spec_stretch(bit), spec_state_from_u8(state).0)
}

/// The bit pair an encoder in state `state` sends for `bit`.
pub open spec fn spec_rc_out(state: u8, bit: u8) -> u8 {
    let enc = spec_state_from_u8(state);
    let sb = spec_stretch(bit);
    spec_combine(enc.1 ^ sb, enc.0 ^ enc.1 ^ sb)
}

/// The link that follows `prev` with `bit`, given the received bit pair.
pub open spec fn spec_new_link(prev: Rc<Link>, bit_pair: u8, bit: u8) -> Link {
    Link {
        prev_link: Some(prev),
        bit: bit,
        state: spec_rc_state((*prev).state, bit),
        cost: ((*prev).cost + spec_hamming(bit_pair, spec_rc_out((*prev).state, bit))) as u32,
    }
}

/// The first link of a path: `bit` from the all-zero state.
pub open spec fn spec_first_link(bit_pair: u8, bit: u8) -> Link {
    Link {
        prev_link: None,
        bit: bit,
        state: spec_rc_state(0, bit),
        cost: spec_hamming(bit_pair, spec_rc_out(0, bit)) as u32,
    }
}

/// The bits of the path ending in `l`, oldest first.
pub open spec fn spec_chain(l: Link) -> Seq<u8>
    decreases l,
{
    match l.prev_link {
        Some(p) => spec_chain(*p).push(l.bit),
        None => seq![l.bit],
    }
}

/// A step of a path through the encoder states.
#[derive(Debug)]
pub struct Link {
    pub prev_link: Option<Rc<Link>>,
    pub bit: u8,
    pub state: u8,
    pub cost: u32,
}

/// `Rc::clone`: another pointer to the same link.
#[verifier::external_body]
fn rc_clone(link: &Rc<Link>) -> (r: Rc<Link>)
    ensures
        r == *link,
{
    Rc::clone(link)
}

/// The link before any path.
pub open spec fn spec_dead_link() -> Link {
    Link { prev_link: None, bit: 0, state: 0, cost: 0 }
}

/// The link before any path.
pub fn dead_link() -> (r: Link)
    ensures
        r == spec_dead_link(),
{
    Link { prev_link: None, bit: 0, state: 0, cost: 0 }
}

impl Link {
    /// The first links of the paths: one for the lane's bit, one for zero,
    /// both from the all-zero state and with nothing before them.
    pub fn first_links(bit_pair: u8, bit: u8) -> (r: [Self; 2])
        requires
            bit_pair < 4,
        ensures
            r[0] == spec_first_link(bit_pair, bit),
            r[1] == spec_first_link(bit_pair, 0),
            r[0].cost <= 2,
            r[1].cost <= 2,
            r[0].state < 4,
            r[1].state < 4,
    {
        let starting_link = dead_link().to_rc_link();
        let mut l0 = Self::new_link(&starting_link, bit_pair, bit);
        let mut l1 = Self::new_link(&starting_link, bit_pair, 0);
        l0.remove_prev_link();
        l1.remove_prev_link();
        [l0, l1]
    }

    /// The two links that follow `link`: one for the lane's bit, one for
    /// zero.
    pub fn next_links(link: &Rc<Link>, bit_pair: u8, bit: u8) -> (r: [Self; 2])
        requires
            bit_pair < 4,
            link.state < 4,
            link.cost <= u32::MAX - 2,
        ensures
            r[0] == spec_new_link(*link, bit_pair, bit),
            r[1] == spec_new_link(*link, bit_pair, 0),
            r[0].cost <= link.cost + 2,
            r[1].cost <= link.cost + 2,
            r[0].state < 4,
            r[1].state < 4,
    {
        [Self::new_link(link, bit_pair, bit), Self::new_link(link, bit_pair, 0)]
    }

    /// The link that follows `link` with `bit`, costing the bits in which the
    /// pair the encoder would send differs from the pair received.
    fn new_link(link: &Rc<Link>, bit_pair: u8, bit: u8) -> (r: Self)
        requires
            bit_pair < 4,
            link.state < 4,
            link.cost <= u32::MAX - 2,
        ensures
            r == spec_new_link(*link, bit_pair, bit),
            r.cost <= link.cost + 2,
            r.state < 4,
            r.cost == link.cost + spec_hamming(bit_pair, spec_rc_out(link.state, bit)),
    {
        let mut encoder: EncoderState<u8> = link.encoder();
        let hypothetical_bit_pair = encoder.push_return_bitpair(stretch(bit));
        let ghost enc = spec_state_from_u8(link.state);
        assert(hypothetical_bit_pair == spec_rc_out(link.state, bit));
        proof {
            lemma_popcount_small(bit_pair ^ hypothetical_bit_pair);
            assert(bit_pair ^ hypothetical_bit_pair < 4) by (bit_vector)
                requires
                    bit_pair < 4,
                    hypothetical_bit_pair < 4,
            ;
        }
        let dist = Self::hamming_dist(bit_pair, hypothetical_bit_pair);
        Self {
            prev_link: Self::link_to(link),
            bit,
            state: u8::from(encoder),
            cost: link.cost + dist,
        }
    }

    /// Another pointer to `link`.
    pub fn link_to(link: &Rc<Link>) -> (r: Option<Rc<Link>>)
        ensures
            r == Some(*link),
    {
        Some(rc_clone(link))
    }

    /// The link behind a shared pointer.
    pub fn to_rc_link(self) -> (r: Rc<Link>)
        ensures
            *r == self,
    {
        Rc::new(self)
    }

    fn remove_prev_link(&mut self)
        ensures
            *final(self) == (Link { prev_link: None, ..*old(self) }),
    {
        self.prev_link = None;
    }

    fn encoder(&self) -> (r: EncoderState<u8>)
        requires
            self.state < 4,
        ensures
            r == spec_state_from_u8(self.state),
    {
        EncoderState::from_state_number(self.state)
    }

    /// The index where this link belongs among the end links.
    pub fn position(&self) -> (r: usize)
        ensures
            r == self.state,
    {
        self.state as usize
    }

    /// The number of bits in which `a` and `b` differ.
    pub fn hamming_dist(a: u8, b: u8) -> (r: u32)
        ensures
            r == spec_hamming(a, b),
    {
        super::single_bit_decode::Link::hamming_dist(a, b) as u32
    }
}


/// A path through the encoder states: its bits, oldest first, and its cost.
pub struct PathEnd {
    pub bits: Seq<u8>,
    pub cost: nat,
}

/// The path an end link stands for.
pub open spec fn spec_path_of(o: Option<Rc<Link>>) -> Option<PathEnd> {
    match o {
        Some(r) => Some(PathEnd { bits: spec_chain(*r), cost: (*r).cost as nat }),
        None => None,
    }
}

/// The path `e`, ending in state `q`, extended by `bit`: the state it
/// reaches and the extended path.
pub open spec fn spec_extend(e: PathEnd, q: int, bit_pair: u8, bit: u8) -> (int, PathEnd) {
    (
        spec_rc_state(q as u8, bit) as int,
        PathEnd {
            bits: e.bits.push(bit),
            cost: (e.cost + spec_hamming(bit_pair, spec_rc_out(q as u8, bit))) as nat,
        },
    )
}

/// The extensions offered by the paths ending in states `0..k`, in order:
/// from each path, the one with the lane's bit, then the one with zero.
pub open spec fn spec_offers(ends: Seq<Option<PathEnd>>, bit_pair: u8, bit: u8, k: int) -> Seq<(int, PathEnd)>
    decreases k,
{
    if k <= 0 {
        Seq::empty()
    } else {
        let before = spec_offers(ends, bit_pair, bit, k - 1);
        match ends[k - 1] {
            Some(e) => before + seq![spec_extend(e, k - 1, bit_pair, bit), spec_extend(e, k - 1, bit_pair, 0)],
            None => before,
        }
    }
}

/// The cheapest of the offers that reach state `p`, the first one on a tie.
pub open spec fn spec_best_offer(offers: Seq<(int, PathEnd)>, p: int) -> Option<PathEnd>
    decreases offers.len(),
{
    if offers.len() == 0 {
        None
    } else {
        let before = spec_best_offer(offers.drop_last(), p);
        let c = offers.last();
        if c.0 == p && (before is None || c.1.cost < before->0.cost) {
            Some(c.1)
        } else {
            before
        }
    }
}

/// The path of one bit, from the all-zero state: the state it reaches and
/// the path.
pub open spec fn spec_first_path(bit_pair: u8, bit: u8) -> (int, PathEnd) {
    spec_extend(PathEnd { bits: Seq::empty(), cost: 0 }, 0, bit_pair, bit)
}

/// The path kept for state `p` after a bit pair: with no paths yet, the
/// one-bit paths (the zero one kept where both land); otherwise the
/// cheapest extension reaching `p`.
pub open spec fn spec_next_path(ends: Seq<Option<PathEnd>>, bit_pair: u8, bit: u8, p: int) -> Option<PathEnd> {
    if forall|q: int| 0 <= q < 4 ==> ends[q] is None {
        if spec_first_path(bit_pair, 0).0 == p {
            Some(spec_first_path(bit_pair, 0).1)
        } else if spec_first_path(bit_pair, bit).0 == p {
            Some(spec_first_path(bit_pair, bit).1)
        } else {
            None
        }
    } else {
        spec_best_offer(spec_offers(ends, bit_pair, bit, 4), p)
    }
}

/// The paths kept for the four states after a bit pair.
pub open spec fn spec_next_paths(ends: Seq<Option<PathEnd>>, bit_pair: u8, bit: u8) -> Seq<Option<PathEnd>> {
    Seq::new(4, |p: int| spec_next_path(ends, bit_pair, bit, p))
}

/// The paths kept after a run of bit pairs.
pub open spec fn spec_run_paths(ends: Seq<Option<PathEnd>>, pairs: Seq<u8>, bit: u8) -> Seq<Option<PathEnd>>
    decreases pairs.len(),
{
    if pairs.len() == 0 {
        ends
    } else {
        spec_next_paths(spec_run_paths(ends, pairs.drop_last(), bit), pairs.last(), bit)
    }
}

/// The first of the paths `ends[0..k]` with the least cost.
pub open spec fn spec_cheapest(ends: Seq<Option<PathEnd>>, k: int) -> int
    decreases k,
{
    if k <= 1 {
        0
    } else {
        let before = spec_cheapest(ends, k - 1);
        if ends[k - 1]->0.cost < ends[before]->0.cost {
            k - 1
        } else {
            before
        }
    }
}

proof fn lemma_best_found(offers: Seq<(int, PathEnd)>, i: int)
    requires
        0 <= i < offers.len(),
    ensures
        spec_best_offer(offers, offers[i].0) is Some,
    decreases offers.len(),
{
    if i < offers.len() - 1 {
        lemma_best_found(offers.drop_last(), i);
    }
}

proof fn lemma_offered(ends: Seq<Option<PathEnd>>, bit_pair: u8, bit: u8, k: int, q: int)
    requires
        0 <= q < k,
        ends[q] is Some,
    ensures
        spec_offers(ends, bit_pair, bit, k).contains(spec_extend(ends[q]->0, q, bit_pair, bit)),
        spec_offers(ends, bit_pair, bit, k).contains(spec_extend(ends[q]->0, q, bit_pair, 0)),
    decreases k,
{
    let c = spec_extend(ends[q]->0, q, bit_pair, bit);
    let c0 = spec_extend(ends[q]->0, q, bit_pair, 0);
    let before = spec_offers(ends, bit_pair, bit, k - 1);
    if q < k - 1 {
        lemma_offered(ends, bit_pair, bit, k - 1, q);
        let j = choose|j: int| 0 <= j < before.len() && before[j] == c;
        let j0 = choose|j0: int| 0 <= j0 < before.len() && before[j0] == c0;
        let e = ends[k - 1];
        if e is Some {
            let all = before + seq![
                spec_extend(e->0, k - 1, bit_pair, bit),
                spec_extend(e->0, k - 1, bit_pair, 0),
            ];
            assert(all[j] == c);
            assert(all[j0] == c0);
        }
    } else {
        let all = before + seq![c, c0];
        assert(all[before.len() as int] == c);
        assert(all[before.len() as int + 1] == c0);
    }
}

/// With a lane bit other than zero, the first bit pair leaves paths in
/// states 0 and 1.
pub proof fn lemma_first_paths(bit_pair: u8, bit: u8)
    requires
        bit != 0,
    ensures
        spec_next_paths(Seq::new(4, |_p: int| None::<PathEnd>), bit_pair, bit)[0] is Some,
        spec_next_paths(Seq::new(4, |_p: int| None::<PathEnd>), bit_pair, bit)[1] is Some,
{
    lemma_lane_encoder(0, bit);
    lemma_lane_encoder(0, 0);
}

/// With a lane bit other than zero, paths in states 0 and 1 lead to paths
/// in all four states.
pub proof fn lemma_paths_fill(ends: Seq<Option<PathEnd>>, bit_pair: u8, bit: u8)
    requires
        bit != 0,
        ends[0] is Some,
        ends[1] is Some,
    ensures
        forall|p: int| 0 <= p < 4 ==> #[trigger] spec_next_paths(ends, bit_pair, bit)[p] is Some,
{
    let offers = spec_offers(ends, bit_pair, bit, 4);
    lemma_offered(ends, bit_pair, bit, 4, 0);
    lemma_offered(ends, bit_pair, bit, 4, 1);
    lemma_lane_encoder(0, bit);
    lemma_lane_encoder(0, 0);
    lemma_lane_encoder(1, bit);
    lemma_lane_encoder(1, 0);
    let j1 = choose|j: int| 0 <= j < offers.len() && offers[j] == spec_extend(ends[0]->0, 0, bit_pair, bit);
    let j0 = choose|j: int| 0 <= j < offers.len() && offers[j] == spec_extend(ends[0]->0, 0, bit_pair, 0);
    let j3 = choose|j: int| 0 <= j < offers.len() && offers[j] == spec_extend(ends[1]->0, 1, bit_pair, bit);
    let j2 = choose|j: int| 0 <= j < offers.len() && offers[j] == spec_extend(ends[1]->0, 1, bit_pair, 0);
    lemma_best_found(offers, j0);
    lemma_best_found(offers, j1);
    lemma_best_found(offers, j2);
    lemma_best_found(offers, j3);
    assert(offers[j0].0 == 0);
    assert(offers[j1].0 == 1);
    assert(offers[j2].0 == 2);
    assert(offers[j3].0 == 3);
    assert(!(forall|q: int| 0 <= q < 4 ==> ends[q] is None));
}

/// The best offer for a state is one of the offers for it, and no offer for
/// it is cheaper.
proof fn lemma_best_offer_min(offers: Seq<(int, PathEnd)>, p: int)
    ensures
        spec_best_offer(offers, p) matches Some(c) ==> exists|i: int|
            0 <= i < offers.len() && #[trigger] offers[i] == (p, c),
        forall|i: int|
            0 <= i < offers.len() && #[trigger] offers[i].0 == p ==> (spec_best_offer(offers, p) matches Some(c)
                && c.cost <= offers[i].1.cost),
    decreases offers.len(),
{
    if offers.len() > 0 {
        let before = offers.drop_last();
        lemma_best_offer_min(before, p);
        let c = offers.last();
        if spec_best_offer(offers, p) is Some {
            let b = spec_best_offer(offers, p)->0;
            if c.0 == p && (spec_best_offer(before, p) is None || c.1.cost < spec_best_offer(before, p)->0.cost) {
                assert(offers[offers.len() - 1] == (p, b));
            } else {
                let i = choose|i: int| 0 <= i < before.len() && #[trigger] before[i] == (p, b);
                assert(offers[i] == before[i]);
            }
        }
        assert forall|i: int| 0 <= i < offers.len() && #[trigger] offers[i].0 == p implies (spec_best_offer(offers, p) matches Some(
            b,
        ) && b.cost <= offers[i].1.cost) by {
            if i < offers.len() - 1 {
                assert(offers[i] == before[i]);
            }
        }
    }
}

/// The values a lane decoder gives for bits: the lane's bit for a one, zero
/// for a zero.
pub open spec fn spec_lane_values(bits: Seq<u8>, bit: u8) -> Seq<u8> {
    Seq::new(bits.len(), |k: int| if bits[k] == 1 { bit } else { 0u8 })
}

/// The paths kept after `m` bit pairs received without error: the true path
/// ends in the true encoder state at no cost, and every other kept path
/// costs something.
pub open spec fn spec_paths_sound(ends: Seq<Option<PathEnd>>, bits: Seq<u8>, bit: u8, m: int) -> bool {
    &&& ends.len() == 4
    &&& forall|p: int|
        0 <= p < 4 ==> (#[trigger] ends[p] matches Some(e) ==> e.bits.len() == m && (e.cost >= 1 || (p
            == spec_true_state(bits, m) && e.bits == spec_lane_values(bits, bit).take(m) && e.cost == 0)))
    &&& m >= 1 ==> (ends[spec_true_state(bits, m) as int] matches Some(e) && e.cost == 0)
    &&& m == 0 ==> forall|p: int| 0 <= p < 4 ==> #[trigger] ends[p] is None
}

/// An encoder state sends different pairs for a zero and a one.
proof fn lemma_out_differs(s: u8)
    requires
        s < 4,
    ensures
        spec_lane_out(s, 0) != spec_lane_out(s, 1),
        spec_lane_out(s, 0) < 4,
        spec_lane_out(s, 1) < 4,
{
}

/// One error-free bit pair keeps the kept paths sound.
proof fn lemma_sound_step(ends: Seq<Option<PathEnd>>, bits: Seq<u8>, bit: u8, m: int)
    requires
        spec_is_bits(bits),
        bit != 0,
        0 <= m < bits.len(),
        spec_paths_sound(ends, bits, bit, m),
    ensures
        spec_paths_sound(spec_next_paths(ends, spec_lane_rx(bits)[m], bit), bits, bit, m + 1),
{
    let rx = spec_lane_rx(bits)[m];
    let sm = spec_true_state(bits, m);
    let bm = bits[m];
    let vals = spec_lane_values(bits, bit);
    let next = spec_next_paths(ends, rx, bit);
    assert(sm < 4);
    assert(spec_true_state(bits, m + 1) == spec_lane_next(sm, bm));
    lemma_out_differs(sm);
    lemma_lane_encoder(sm, bit);
    lemma_lane_encoder(sm, 0);
    lemma_hamming_pairs(rx, spec_lane_out(sm, 0));
    lemma_hamming_pairs(rx, spec_lane_out(sm, 1));
    assert(spec_lane_out(sm, bit) == spec_lane_out(sm, 1));
    assert(spec_lane_next(sm, bit) == spec_lane_next(sm, 1));
    let tv = if bm == 1 { bit } else { 0u8 };
    assert(vals.take(m + 1) =~= vals.take(m).push(tv));
    if m == 0 {
        assert(forall|q: int| 0 <= q < 4 ==> ends[q] is None);
        assert(sm == 0);
        let f1 = spec_first_path(rx, bit);
        let f0 = spec_first_path(rx, 0);
        lemma_lane_encoder(0, bit);
        lemma_lane_encoder(0, 0);
        assert(f1.0 == 1 && f0.0 == 0);
        assert(f1.1.bits =~= seq![bit]);
        assert(f0.1.bits =~= seq![0u8]);
        assert forall|p: int| 0 <= p < 4 implies (#[trigger] next[p] matches Some(e) ==> e.bits.len() == 1 && (e.cost
            >= 1 || (p == spec_true_state(bits, 1) && e.bits == vals.take(1) && e.cost == 0))) by {}
    } else {
        let offers = spec_offers(ends, rx, bit, 4);
        let e0 = ends[sm as int]->0;
        assert(e0.bits == vals.take(m)) by {
            assert(e0.cost == 0);
        }
        lemma_offered(ends, rx, bit, 4, sm as int);
        let ext = spec_extend(e0, sm as int, rx, tv);
        assert(ext.0 == spec_true_state(bits, m + 1));
        assert(ext.1.cost == 0);
        assert(ext.1.bits == vals.take(m + 1));
        assert(offers.contains(ext)) by {
            if bm == 1 {
            } else {
            }
        }
        let j = choose|j: int| 0 <= j < offers.len() && offers[j] == ext;
        lemma_offers_sound(ends, rx, bits, bit, m, 4);
        assert forall|p: int| 0 <= p < 4 implies (#[trigger] next[p] matches Some(e) ==> e.bits.len() == m + 1 && (e.cost
            >= 1 || (p == spec_true_state(bits, m + 1) && e.bits == vals.take(m + 1) && e.cost == 0))) by {
            lemma_best_offer_min(offers, p);
            if next[p] is Some {
                let e = next[p]->0;
                let i = choose|i: int| 0 <= i < offers.len() && #[trigger] offers[i] == (p, e);
                assert(offers[i].1.bits.len() == m + 1);
            }
        }
        lemma_best_offer_min(offers, spec_true_state(bits, m + 1) as int);
        assert(offers[j].0 == spec_true_state(bits, m + 1));
    }
}

/// Every offer from sound paths is sound: it extends a path by one bit, and
/// it costs nothing only when it is the true path extended by the true bit.
proof fn lemma_offers_sound(ends: Seq<Option<PathEnd>>, rx: u8, bits: Seq<u8>, bit: u8, m: int, k: int)
    requires
        spec_is_bits(bits),
        bit != 0,
        1 <= m < bits.len(),
        0 <= k <= 4,
        rx == spec_lane_rx(bits)[m],
        spec_paths_sound(ends, bits, bit, m),
    ensures
        forall|i: int|
            0 <= i < spec_offers(ends, rx, bit, k).len() ==> {
                let o = #[trigger] spec_offers(ends, rx, bit, k)[i];
                &&& o.1.bits.len() == m + 1
                &&& (o.1.cost >= 1 || (o.0 == spec_true_state(bits, m + 1) && o.1.bits == spec_lane_values(bits, bit).take(m + 1) && o.1.cost == 0))
            },
    decreases k,
{
    if k > 0 {
        lemma_offers_sound(ends, rx, bits, bit, m, k - 1);
        let before = spec_offers(ends, rx, bit, k - 1);
        let q = k - 1;
        if ends[q] is Some {
            let e = ends[q]->0;
            let sm = spec_true_state(bits, m);
            let bm = bits[m];
            let vals = spec_lane_values(bits, bit);
            lemma_lane_encoder(q as u8, bit);
            lemma_lane_encoder(q as u8, 0);
            lemma_out_differs(sm);
            lemma_hamming_pairs(rx, spec_lane_out(q as u8, 0));
            lemma_hamming_pairs(rx, spec_lane_out(q as u8, 1));
            assert(spec_lane_out(q as u8, bit) == spec_lane_out(q as u8, 1));
            assert(spec_lane_next(q as u8, bit) == spec_lane_next(q as u8, 1));
            assert(spec_true_state(bits, m + 1) == spec_lane_next(sm, bm));
            let all = before + seq![spec_extend(e, q, rx, bit), spec_extend(e, q, rx, 0)];
            assert forall|i: int| 0 <= i < all.len() implies {
                let o = #[trigger] all[i];
                &&& o.1.bits.len() == m + 1
                &&& (o.1.cost >= 1 || (o.0 == spec_true_state(bits, m + 1) && o.1.bits == vals.take(m + 1) && o.1.cost == 0))
            } by {
                if i < before.len() {
                    assert(all[i] == before[i]);
                } else if e.cost == 0 {
                    assert(q == sm);
                    assert(e.bits == vals.take(m));
                    let tv = if bm == 1 { bit } else { 0u8 };
                    assert(vals.take(m + 1) =~= vals.take(m).push(tv));
                }
            }
        }
    }
}

/// No paths yet, for any state.
pub open spec fn spec_no_paths() -> Seq<Option<PathEnd>> {
    Seq::new(4, |_p: int| None::<PathEnd>)
}

/// The paths kept while bit pairs arrive without error stay sound.
proof fn lemma_run_sound(bits: Seq<u8>, bit: u8, m: int)
    requires
        spec_is_bits(bits),
        bit != 0,
        0 <= m <= bits.len(),
    ensures
        spec_paths_sound(spec_run_paths(spec_no_paths(), spec_lane_rx(bits).take(m), bit), bits, bit, m),
    decreases m,
{
    let rx = spec_lane_rx(bits);
    if m > 0 {
        lemma_run_sound(bits, bit, m - 1);
        assert(rx.take(m).drop_last() =~= rx.take(m - 1));
        assert(rx.take(m).last() == rx[m - 1]);
        lemma_sound_step(spec_run_paths(spec_no_paths(), rx.take(m - 1), bit), bits, bit, m - 1);
    }
}

/// With a lane bit other than zero, one pair leaves paths in states 0 and 1,
/// two or more leave a path in every state.
pub proof fn lemma_run_fills(pairs: Seq<u8>, bit: u8, m: int)
    requires
        bit != 0,
        0 <= m <= pairs.len(),
    ensures
        m >= 1 ==> spec_run_paths(spec_no_paths(), pairs.take(m), bit)[0] is Some
            && spec_run_paths(spec_no_paths(), pairs.take(m), bit)[1] is Some,
        m >= 2 ==> forall|p: int|
            0 <= p < 4 ==> #[trigger] spec_run_paths(spec_no_paths(), pairs.take(m), bit)[p] is Some,
    decreases m,
{
    let empty = spec_no_paths();
    if m > 0 {
        lemma_run_fills(pairs, bit, m - 1);
        assert(pairs.take(m).drop_last() =~= pairs.take(m - 1));
        assert(pairs.take(m).last() == pairs[m - 1]);
        let before = spec_run_paths(empty, pairs.take(m - 1), bit);
        if m == 1 {
            assert(pairs.take(0) =~= Seq::<u8>::empty());
            assert(before == empty);
            lemma_first_paths(pairs[0], bit);
        } else {
            lemma_paths_fill(before, pairs[m - 1], bit);
        }
    }
}

/// The cheapest path is no dearer than any other.
proof fn lemma_cheapest_min(ends: Seq<Option<PathEnd>>, k: int)
    requires
        1 <= k <= ends.len(),
        forall|p: int| 0 <= p < k ==> #[trigger] ends[p] is Some,
    ensures
        0 <= spec_cheapest(ends, k) < k,
        forall|j: int| 0 <= j < k ==> ends[spec_cheapest(ends, k)]->0.cost <= #[trigger] ends[j]->0.cost,
    decreases k,
{
    if k > 1 {
        lemma_cheapest_min(ends, k - 1);
    }
}

/// Round trip for one lane: a lane decoder (of a bit other than zero) fed the
/// bit pairs that a lane encoder sends for at least two bits reads those
/// bits back.
pub proof fn lemma_rc_lane_round_trip(bits: Seq<u8>, bit: u8)
    requires
        spec_is_bits(bits),
        bit != 0,
        bits.len() >= 2,
    ensures
        forall|p: int|
            0 <= p < 4 ==> #[trigger] spec_run_paths(spec_no_paths(), spec_lane_rx(bits), bit)[p] is Some,
        ({
            let ends = spec_run_paths(spec_no_paths(), spec_lane_rx(bits), bit);
            ends[spec_cheapest(ends, 4)]->0.bits == spec_lane_values(bits, bit)
        }),
{
    let rx = spec_lane_rx(bits);
    let m = bits.len() as int;
    assert(rx.take(m) =~= rx);
    lemma_run_sound(bits, bit, m);
    lemma_run_fills(rx, bit, m);
    let ends = spec_run_paths(spec_no_paths(), rx, bit);
    lemma_cheapest_min(ends, 4);
    let c = spec_cheapest(ends, 4);
    let t = spec_true_state(bits, m) as int;
    assert(ends[c]->0.cost <= ends[t]->0.cost);
    assert(spec_lane_values(bits, bit).take(m) =~= spec_lane_values(bits, bit));
}

/// Every bit of `s` is zero or the lane's bit.
pub open spec fn spec_lane_bits(s: Seq<u8>, bit: u8) -> bool {
    forall|i: int| 0 <= i < s.len() ==> #[trigger] s[i] == 0 || s[i] == bit
}

/// A decoder for a single bit lane: for each of the four encoder states,
/// the cheapest path reaching it so far.
#[derive(Debug)]
pub struct BitDecoderState {
    end_links: [Option<Rc<Link>>; 4],
    bit: u8,
    len: usize,
}

/// A lane decoder as its parts: the path kept for each state, the lane's
/// bit and the number of bit pairs taken.
pub struct RcLaneView {
    pub ends: Seq<Option<PathEnd>>,
    pub bit: u8,
    pub len: nat,
}

impl View for BitDecoderState {
    type V = RcLaneView;

    closed spec fn view(&self) -> RcLaneView {
        RcLaneView {
            ends: Seq::new(4, |p: int| spec_path_of(self.end_links@[p])),
            bit: self.bit,
            len: self.len as nat,
        }
    }
}

impl BitDecoderState {
    /// Every end link ends in its own state, holds a path of one link per
    /// bit pair taken, each bit zero or the lane's bit, and costs at most two
    /// per link; there are end links exactly when a pair was taken.
    pub closed spec fn inv(&self) -> bool {
        &&& self.len < 0x7fff_ffff
        &&& forall|p: int|
            0 <= p < 4 ==> (#[trigger] self.end_links@[p] matches Some(l) ==> spec_chain(*l).len() == self.len
                && (*l).state == p && (*l).cost <= 2 * self.len && spec_lane_bits(spec_chain(*l), self.bit))
        &&& self.len == 0 <==> forall|p: int| 0 <= p < 4 ==> #[trigger] self.end_links@[p] is None
        &&& self.len == 1 ==> self.end_links@[2] is None && self.end_links@[3] is None
        &&& self.bit != 0 && self.len >= 1 ==> self.end_links@[0] is Some && self.end_links@[1] is Some
        &&& self.bit != 0 && self.len >= 2 ==> forall|p: int| 0 <= p < 4 ==> #[trigger] self.end_links@[p] is Some
    }

    /// The state of the end link kept for slot `p`, if there is one.
    pub closed spec fn spec_end_state(&self, p: int) -> Option<u8> {
        match self.end_links@[p] {
            Some(l) => Some((*l).state),
            None => None,
        }
    }

    /// A decoder in shape has a path for some state exactly when it has taken
    /// a pair; each path has one bit per pair, each zero or the lane's bit;
    /// the end link kept in slot `p` is in state `p`. After one pair only the
    /// slots 0 and 1 can hold a path, and with a lane bit other than zero
    /// they do; after two or more pairs all four do.
    pub proof fn lemma_inv_view(&self)
        requires
            self.inv(),
        ensures
            self@.ends.len() == 4,
            self@.len < 0x7fff_ffff,
            self@.len == 0 <==> forall|p: int| 0 <= p < 4 ==> #[trigger] self@.ends[p] is None,
            forall|p: int|
                0 <= p < 4 ==> (#[trigger] self@.ends[p] matches Some(e) ==> e.bits.len() == self@.len
                    && spec_lane_bits(e.bits, self@.bit)),
            forall|p: int|
                0 <= p < 4 ==> (#[trigger] self.spec_end_state(p) is Some <==> self@.ends[p] is Some)
                    && (self.spec_end_state(p) matches Some(q) ==> q == p),
            self@.len == 1 ==> self@.ends[2] is None && self@.ends[3] is None,
            self@.bit != 0 && self@.len >= 1 ==> self@.ends[0] is Some && self@.ends[1] is Some,
            self@.bit != 0 && self@.len >= 2 ==> forall|p: int| 0 <= p < 4 ==> #[trigger] self@.ends[p] is Some,
    {
        assert forall|p: int| 0 <= p < 4 implies (#[trigger] self.spec_end_state(p) is Some <==> self@.ends[p] is Some)
            && (self.spec_end_state(p) matches Some(q) ==> q == p) by {
            assert(self@.ends[p] == spec_path_of(self.end_links@[p]));
        }
        assert(self@.ends[0] == spec_path_of(self.end_links@[0]));
        assert(self@.ends[1] == spec_path_of(self.end_links@[1]));
        assert(self@.ends[2] == spec_path_of(self.end_links@[2]));
        assert(self@.ends[3] == spec_path_of(self.end_links@[3]));
        if self@.bit != 0 && self@.len >= 2 {
            assert forall|p: int| 0 <= p < 4 implies #[trigger] self@.ends[p] is Some by {
                assert(self.end_links@[p] is Some);
            }
        }
        assert forall|p: int| 0 <= p < 4 implies (#[trigger] self@.ends[p] matches Some(e) ==> e.bits.len()
            == self@.len && spec_lane_bits(e.bits, self@.bit)) by {
            if self.end_links@[p] is Some {
                assert(self@.ends[p] == spec_path_of(self.end_links@[p]));
            }
        }
        if self@.len != 0 {
            let q = choose|q: int| 0 <= q < 4 && !(self.end_links@[q] is None);
            assert(!(self@.ends[q] is None));
        } else {
            assert forall|p: int| 0 <= p < 4 implies #[trigger] self@.ends[p] is None by {
                assert(self.end_links@[p] is None);
            }
        }
    }

    /// A decoder for the lane of `bit` that has taken nothing.
    pub fn new(bit: u8) -> (r: Self)
        ensures
            r.inv(),
            r@ == (RcLaneView { ends: Seq::new(4, |_p: int| None::<PathEnd>), bit: bit, len: 0 }),
    {
        let r = Self { end_links: [None, None, None, None], bit, len: 0 };
        assert(r@.ends =~= Seq::new(4, |_p: int| None::<PathEnd>));
        r
    }

    fn is_empty(&self) -> (r: bool)
        ensures
            r == forall|q: int| 0 <= q < 4 ==> self.end_links@[q] is None,
            r == forall|q: int| 0 <= q < 4 ==> self@.ends[q] is None,
    {
        let r = self.end_links[0].is_none() && self.end_links[1].is_none() && self.end_links[2].is_none()
            && self.end_links[3].is_none();
        assert(r == forall|q: int| 0 <= q < 4 ==> self.end_links@[q] is None) by {
            if !r {
                if self.end_links[0].is_some() {
                    assert(self.end_links@[0] is Some);
                } else if self.end_links[1].is_some() {
                    assert(self.end_links@[1] is Some);
                } else if self.end_links[2].is_some() {
                    assert(self.end_links@[2] is Some);
                } else {
                    assert(self.end_links@[3] is Some);
                }
            }
        }
        assert(r == forall|q: int| 0 <= q < 4 ==> self@.ends[q] is None) by {
            if !r {
                let q = choose|q: int| 0 <= q < 4 && !(self.end_links@[q] is None);
                assert(!(self@.ends[q] is None));
            }
        }
        r
    }

    /// Takes a pair of bits (bytes masked to the lane's bit) and keeps, for
    /// each encoder state, the cheapest path reaching it.
    #[verifier::spinoff_prover]
    pub fn push(&mut self, s0: u8, s1: u8)
        requires
            old(self).inv(),
            old(self)@.len < 0x7fff_fffe,
        ensures
            final(self).inv(),
            final(self)@ == (RcLaneView {
                ends: spec_next_paths(old(self)@.ends, spec_combine(s0, s1), old(self)@.bit),
                bit: old(self)@.bit,
                len: old(self)@.len + 1,
            }),
    {
        let bit_pair = combine(s0, s1);
        let ghost ends = self@.ends;
        let mut new_endlinks: [Option<Rc<Link>>; 4] = [None, None, None, None];
        if !self.is_empty() {
            let mut min_costs: [u32; 4] = [u32::MAX, u32::MAX, u32::MAX, u32::MAX];
            let mut q: usize = 0;
            while q < 4
                invariant
                    0 <= q <= 4,
                    bit_pair < 4,
                    ends == self@.ends,
                    self.inv(),
                    self.len < 0x7fff_fffe,
                    forall|p: int|
                        0 <= p < 4 ==> #[trigger] spec_path_of(new_endlinks@[p]) == spec_best_offer(
                            spec_offers(ends, bit_pair, self.bit, q as int),
                            p,
                        ),
                    forall|p: int|
                        0 <= p < 4 ==> (#[trigger] new_endlinks@[p] matches Some(l) ==> (spec_chain(*l).len()
                            == self.len + 1 && (*l).state == p && (*l).cost <= 2 * self.len + 2
                            && min_costs@[p] == (*l).cost && spec_lane_bits(spec_chain(*l), self.bit))),
                    forall|p: int| 0 <= p < 4 ==> (#[trigger] new_endlinks@[p] is None ==> min_costs@[p] == u32::MAX),
                decreases 4 - q,
            {
                let ghost before = spec_offers(ends, bit_pair, self.bit, q as int);
                if let Some(link) = &self.end_links[q] {
                    assert(self.end_links@[q as int] == Some(*link));
                    assert(ends[q as int] == spec_path_of(Some(*link)));
                    let ghost e = ends[q as int]->0;
                    let ghost offered = seq![
                        spec_extend(e, q as int, bit_pair, self.bit),
                        spec_extend(e, q as int, bit_pair, 0),
                    ];
                    let mut k: usize = 0;
                    while k < 2
                        invariant
                            0 <= k <= 2,
                            bit_pair < 4,
                            q < 4,
                            self.end_links@[q as int] == Some(*link),
                            spec_chain(**link).len() == self.len,
                            (**link).state == q,
                            (**link).cost <= 2 * self.len,
                            spec_lane_bits(spec_chain(**link), self.bit),
                            self.len < 0x7fff_fffe,
                            e == (PathEnd { bits: spec_chain(**link), cost: (**link).cost as nat }),
                            offered == seq![
                                spec_extend(e, q as int, bit_pair, self.bit),
                                spec_extend(e, q as int, bit_pair, 0),
                            ],
                            forall|p: int|
                                0 <= p < 4 ==> #[trigger] spec_path_of(new_endlinks@[p]) == spec_best_offer(
                                    before + offered.take(k as int),
                                    p,
                                ),
                            forall|p: int|
                                0 <= p < 4 ==> (#[trigger] new_endlinks@[p] matches Some(l) ==> (spec_chain(*l).len()
                                    == self.len + 1 && (*l).state == p && (*l).cost <= 2 * self.len + 2
                                    && min_costs@[p] == (*l).cost && spec_lane_bits(spec_chain(*l), self.bit))),
                            forall|p: int|
                                0 <= p < 4 ==> (#[trigger] new_endlinks@[p] is None ==> min_costs@[p] == u32::MAX),
                        decreases 2 - k,
                    {
                        let ghost offers = before + offered.take(k as int + 1);
                        assert(offers.drop_last() =~= before + offered.take(k as int));
                        let b = if k == 0 { self.bit } else { 0 };
                        let each = Link::new_link(link, bit_pair, b);
                        assert(spec_chain(each) == spec_chain(**link).push(b));
                        assert(spec_lane_bits(spec_chain(each), self.bit));
                        assert(offers.last() == offered[k as int]);
                        assert(offered[k as int] == (each.state as int, PathEnd { bits: spec_chain(each), cost: each.cost as nat }));
                        let index = each.position();
                        let ghost prev_new = new_endlinks@;
                        let ghost prev_min = min_costs@;
                        let ghost updated = each.cost < min_costs@[index as int];
                        let ghost each_path = PathEnd { bits: spec_chain(each), cost: each.cost as nat };
                        if each.cost < min_costs[index] {
                            min_costs[index] = each.cost;
                            new_endlinks[index] = Some(each.to_rc_link());
                        }
                        assert forall|p: int| 0 <= p < 4 implies #[trigger] spec_path_of(new_endlinks@[p])
                            == spec_best_offer(offers, p) by {
                            assert(spec_path_of(prev_new[p]) == spec_best_offer(offers.drop_last(), p));
                            if p == index as int {
                                if updated {
                                    assert(spec_path_of(new_endlinks@[p]) == Some(each_path));
                                } else {
                                    assert(new_endlinks@[p] == prev_new[p]);
                                    if prev_new[p] is Some {
                                        assert(prev_min[p] == (*(prev_new[p]->0)).cost);
                                    }
                                }
                            } else {
                                assert(new_endlinks@[p] == prev_new[p]);
                            }
                            assert(spec_best_offer(offers, p) == (if offers.last().0 == p && (spec_best_offer(
                                offers.drop_last(),
                                p,
                            ) is None || offers.last().1.cost < spec_best_offer(offers.drop_last(), p)->0.cost) {
                                Some(offers.last().1)
                            } else {
                                spec_best_offer(offers.drop_last(), p)
                            }));
                        }
                        k += 1;
                    }
                    assert(offered.take(2) =~= offered);
                    assert(spec_offers(ends, bit_pair, self.bit, q as int + 1) == before + offered);
                } else {
                    assert(ends[q as int] is None);
                }
                q += 1;
            }
            proof {
                let q0 = choose|q0: int| 0 <= q0 < 4 && !(ends[q0] is None);
                let offers = spec_offers(ends, bit_pair, self.bit, 4);
                lemma_offered(ends, bit_pair, self.bit, 4, q0);
                let j = choose|j: int| 0 <= j < offers.len() && offers[j] == spec_extend(ends[q0]->0, q0, bit_pair, self.bit);
                lemma_best_found(offers, j);
                assert(spec_path_of(new_endlinks@[offers[j].0]) is Some);
            }
        } else {
            let first = Link::first_links(bit_pair, self.bit);
            let mut k: usize = 0;
            while k < 2
                invariant
                    0 <= k <= 2,
                    bit_pair < 4,
                    first[0] == spec_first_link(bit_pair, self.bit),
                    first[1] == spec_first_link(bit_pair, 0),
                    first[0].cost <= 2,
                    first[1].cost <= 2,
                    self.len == 0,
                    forall|p: int|
                        0 <= p < 4 ==> #[trigger] spec_path_of(new_endlinks@[p]) == (if k >= 2 && first[1].state
                            == p {
                            Some(PathEnd { bits: seq![0u8], cost: first[1].cost as nat })
                        } else if k >= 1 && first[0].state == p {
                            Some(PathEnd { bits: seq![self.bit], cost: first[0].cost as nat })
                        } else {
                            None
                        }),
                    forall|p: int|
                        0 <= p < 4 ==> (#[trigger] new_endlinks@[p] matches Some(l) ==> (spec_chain(*l).len() == 1
                            && (*l).state == p && (*l).cost <= 2 && spec_lane_bits(spec_chain(*l), self.bit))),
                decreases 2 - k,
            {
                let each = if k == 0 {
                    Link { prev_link: None, bit: self.bit, state: first[0].state, cost: first[0].cost }
                } else {
                    Link { prev_link: None, bit: 0, state: first[1].state, cost: first[1].cost }
                };
                assert(each.state < 4);
                let index = each.position();
                new_endlinks[index] = Some(each.to_rc_link());
                k += 1;
            }
            assert(spec_path_of(new_endlinks@[first[1].state as int]) is Some);
            assert(new_endlinks@[first[1].state as int] is Some);
        }
        proof {
            let bp = spec_combine(s0, s1);
            assert(bit_pair == bp);
            let nx = spec_next_paths(ends, bp, self.bit);
            assert forall|p: int| 0 <= p < 4 implies #[trigger] spec_path_of(new_endlinks@[p]) == nx[p] by {}
            if self.len == 0 {
                assert(ends =~= Seq::new(4, |_p: int| None::<PathEnd>)) by {
                    assert forall|p: int| 0 <= p < 4 implies #[trigger] ends[p] is None by {
                        assert(ends[p] == spec_path_of(self.end_links@[p]));
                    }
                }
                lemma_lane_encoder(0, self.bit);
                lemma_lane_encoder(0, 0);
                assert(nx[2] is None);
                assert(nx[3] is None);
                if self.bit != 0 {
                    lemma_first_paths(bp, self.bit);
                }
            } else if self.bit != 0 {
                assert(ends[0] == spec_path_of(self.end_links@[0]));
                assert(ends[1] == spec_path_of(self.end_links@[1]));
                lemma_paths_fill(ends, bp, self.bit);
            }
            assert(spec_path_of(new_endlinks@[0]) == nx[0]);
            assert(spec_path_of(new_endlinks@[1]) == nx[1]);
            assert(spec_path_of(new_endlinks@[2]) == nx[2]);
            assert(spec_path_of(new_endlinks@[3]) == nx[3]);
        }
        self.end_links = new_endlinks;
        self.len = self.len + 1;
        assert(exists|p: int| 0 <= p < 4 && !(#[trigger] self.end_links@[p] is None));
        assert(self@.ends =~= spec_next_paths(ends, spec_combine(s0, s1), self.bit)) by {
            assert forall|p: int| 0 <= p < 4 implies #[trigger] self@.ends[p] == spec_next_path(
                ends,
                spec_combine(s0, s1),
                self.bit,
                p,
            ) by {
                assert(self@.ends[p] == spec_path_of(new_endlinks@[p]));
            }
        }
    }

    /// The bits of the cheapest path (the first of the cheapest, in state
    /// order), oldest first.
    pub fn read(&self) -> (r: Vec<u8>)
        requires
            self.inv(),
            forall|p: int| 0 <= p < 4 ==> #[trigger] self@.ends[p] is Some,
        ensures
            r@ == self@.ends[spec_cheapest(self@.ends, 4)]->0.bits,
            r@.len() == self@.len,
            spec_lane_bits(r@, self@.bit),
    {
        proof {
            self.lemma_inv_view();
        }
        assert forall|p: int| 0 <= p < 4 implies #[trigger] self.end_links@[p] is Some by {
            assert(self@.ends[p] is Some);
        }
        let mut ans: Vec<u8> = vec![0; self.len];
        let mut best: usize = 0;
        let mut i: usize = 1;
        while i < 4
            invariant
                1 <= i <= 4,
                best < i,
                best == spec_cheapest(self@.ends, i as int),
                forall|p: int| 0 <= p < 4 ==> #[trigger] self.end_links@[p] is Some,
            decreases 4 - i,
        {
            let ci = self.end_links[i].as_ref().unwrap().cost;
            let cb = self.end_links[best].as_ref().unwrap().cost;
            assert(self@.ends[i as int]->0.cost == ci);
            assert(self@.ends[best as int]->0.cost == cb);
            if ci < cb {
                best = i;
            }
            i += 1;
        }
        let ghost path = self@.ends[best as int]->0.bits;
        let mut link = rc_clone(self.end_links[best].as_ref().unwrap());
        assert(spec_chain(*link) == path);
        let mut backwards_index: usize = 1;
        while backwards_index <= self.len
            invariant
                1 <= backwards_index <= self.len + 1,
                self.len < 0x7fff_ffff,
                ans@.len() == self.len,
                path.len() == self.len,
                backwards_index <= self.len ==> spec_chain(*link) == path.take(self.len - backwards_index + 1),
                forall|j: int| self.len - backwards_index < j < self.len ==> ans@[j] == path[j],
            decreases self.len + 1 - backwards_index,
        {
            let i = self.len - backwards_index;
            ans.set(i, link.bit);
            let ghost cur = spec_deref_rc(link);
            let next = match &link.prev_link {
                Some(p) => rc_clone(p),
                None => dead_link().to_rc_link(),
            };
            proof {
                assert(spec_chain(cur).last() == cur.bit);
                if i > 0 {
                    assert(cur.prev_link is Some);
                    assert(spec_chain(*next) == spec_chain(cur).drop_last());
                    assert(path.take(i as int) =~= path.take(i as int + 1).drop_last());
                }
            }
            link = next;
            backwards_index += 1;
        }
        assert(ans@ =~= path);
        ans
    }
}

/// The link behind a shared pointer.
pub open spec fn spec_deref_rc(r: Rc<Link>) -> Link {
    *r
}

} // verus!
