//! What the capture does with a stream that holds a frame: it finds the
//! identifier wherever it starts, at any bit, and hands out the encoded
//! payload that follows it.
use vstd::prelude::*;
use crate::dsp::wtf_ecc::{lemma_ecc_round_trip, spec_ecc_decode, spec_ecc_encode};
use crate::pipeline::frame::{spec_frame_encode, spec_frame_ident, spec_len_bytes};
use super::search_arr::{ShiftInfo, lemma_bits_concat, lemma_shift_head, spec_bit, spec_bits, spec_is_ident, spec_search};
use super::search_arr::lemma_pack_bits;
use super::search_task::{
    CaptureView, State, lemma_realign_keeps_bits, lemma_realign_step, spec_capture_start, spec_le_u16,
    spec_pending_of, spec_realign, spec_realign_all, spec_step,
};

verus! {

/// The window after `k` more bits: the last 96 bits of `w` followed by the
/// first `k` bits of `bs`.
pub open spec fn spec_window_after(w: Seq<bool>, bs: Seq<bool>, k: int) -> Seq<bool> {
    (w + bs.take(k)).skip(k)
}

/// `k` more bits after `a` more bits are `a + k` more bits.
pub proof fn lemma_window_after_after(w: Seq<bool>, bs: Seq<bool>, a: int, i: int)
    requires
        0 <= a,
        0 <= i,
        a + i <= bs.len(),
    ensures
        spec_window_after(spec_window_after(w, bs, a), bs.skip(a), i) == spec_window_after(w, bs, a + i),
{
    let n = w.len() as int;
    let l = spec_window_after(spec_window_after(w, bs, a), bs.skip(a), i);
    let r = spec_window_after(w, bs, a + i);
    assert(l.len() == n && r.len() == n);
    assert forall|j: int| 0 <= j < n implies #[trigger] l[j] == r[j] by {
        if j + i < n {
            if j + i + a < n {
            } else {
            }
        } else {
        }
    }
    assert(l =~= r);
}

/// The bits of the `offset` leftmost bits of `head`, in order.
pub open spec fn spec_head_bits(head: u8, offset: u8) -> Seq<bool> {
    Seq::new(offset as nat, |j: int| spec_bit(head, j as u8))
}

/// Searching the leftmost `offset` bits of `head`: with no match, the
/// window moves on by all of them; with the first match after bit `i`, the
/// window moves on by `i` bits and the bits after them are left over.
pub proof fn lemma_search_bits(w: Seq<bool>, head: u8, offset: u8, i: int)
    requires
        w.len() == 96,
        offset <= 8,
    ensures
        (forall|k: int| 1 <= k <= offset ==> !#[trigger] spec_is_ident(spec_window_after(w, spec_head_bits(head, offset), k)))
            ==> spec_search(w, head, offset) == (spec_window_after(w, spec_head_bits(head, offset), offset as int), None::<ShiftInfo>),
        1 <= i <= offset && spec_is_ident(spec_window_after(w, spec_head_bits(head, offset), i)) && (forall|k: int|
            1 <= k < i ==> !#[trigger] spec_is_ident(spec_window_after(w, spec_head_bits(head, offset), k))) ==> {
            &&& spec_search(w, head, offset).0 == spec_window_after(w, spec_head_bits(head, offset), i)
            &&& spec_search(w, head, offset).1 matches Some(info)
            &&& info.offset == offset - i
            &&& Seq::new(info.offset as nat, |j: int| spec_bit(info.head, j as u8)) == spec_head_bits(head, offset).skip(i)
        },
    decreases offset,
{
    let bs = spec_head_bits(head, offset);
    if offset == 0 {
        assert(spec_window_after(w, bs, 0) =~= w);
    } else {
        lemma_shift_head(head);
        let next = w.drop_first().push(head >= 0x80u8);
        let rest = (head << 1u8) as u8;
        let bs1 = spec_head_bits(rest, (offset - 1) as u8);
        assert(next =~= spec_window_after(w, bs, 1));
        assert(bs1 =~= bs.skip(1)) by {
            assert forall|j: int| 0 <= j < offset - 1 implies #[trigger] bs1[j] == bs.skip(1)[j] by {
                assert(spec_bit(rest, j as u8) == spec_bit(head, (j as u8 + 1) as u8));
            }
        }
        assert forall|k: int| 0 <= k <= offset - 1 implies #[trigger] spec_window_after(next, bs1, k) == spec_window_after(w, bs, 1 + k) by {
            lemma_window_after_after(w, bs, 1, k);
        }
        if spec_is_ident(next) {
            if 1 <= i <= offset && spec_is_ident(spec_window_after(w, bs, i)) && (forall|k: int|
                1 <= k < i ==> !#[trigger] spec_is_ident(spec_window_after(w, bs, k))) {
                assert(i == 1) by {
                    if i > 1 {
                        assert(!spec_is_ident(spec_window_after(w, bs, 1)));
                    }
                }
                let info = ShiftInfo { offset: (offset - 1) as u8, head: rest };
                assert(Seq::new(info.offset as nat, |j: int| spec_bit(info.head, j as u8)) =~= bs.skip(1)) by {
                    assert(Seq::new(info.offset as nat, |j: int| spec_bit(info.head, j as u8)) =~= bs1);
                }
            }
            assert(spec_is_ident(spec_window_after(w, bs, 1)));
        } else {
            lemma_search_bits(next, rest, (offset - 1) as u8, i - 1);
            if forall|k: int| 1 <= k <= offset ==> !#[trigger] spec_is_ident(spec_window_after(w, bs, k)) {
                assert forall|k: int| 1 <= k <= offset - 1 implies !#[trigger] spec_is_ident(spec_window_after(next, bs1, k)) by {
                    assert(!spec_is_ident(spec_window_after(w, bs, 1 + k)));
                }
                assert(spec_window_after(next, bs1, offset - 1) == spec_window_after(w, bs, offset as int));
            }
            if 1 <= i <= offset && spec_is_ident(spec_window_after(w, bs, i)) && (forall|k: int|
                1 <= k < i ==> !#[trigger] spec_is_ident(spec_window_after(w, bs, k))) {
                assert(i > 1) by {
                    if i == 1 {
                        assert(spec_window_after(w, bs, 1) == next);
                    }
                }
                assert(spec_is_ident(spec_window_after(next, bs1, i - 1)));
                assert forall|k: int| 1 <= k < i - 1 implies !#[trigger] spec_is_ident(spec_window_after(next, bs1, k)) by {
                    assert(!spec_is_ident(spec_window_after(w, bs, 1 + k)));
                }
                assert(bs1.skip(i - 1) =~= bs.skip(i));
            }
        }
    }
}

/// A capture run over bytes: the capture after them and the payloads it
/// handed out, in order.
pub open spec fn spec_run_task(t: CaptureView, inputs: Seq<u8>) -> (CaptureView, Seq<Seq<u8>>)
    decreases inputs.len(),
{
    if inputs.len() == 0 {
        (t, Seq::empty())
    } else {
        let (t1, o) = spec_step(t, inputs[0]);
        let (t2, outs) = spec_run_task(t1, inputs.drop_first());
        (
            t2,
            match o {
                Some(x) => seq![x] + outs,
                None => outs,
            },
        )
    }
}

proof fn lemma_head_bits_of_byte(x: u8)
    ensures
        spec_head_bits(x, 8) == spec_bits(seq![x]),
{
    assert(spec_head_bits(x, 8) =~= spec_bits(seq![x]));
}

/// The window after `k` bits depends only on the first `k` bits.
proof fn lemma_window_prefix(w: Seq<bool>, a: Seq<bool>, b: Seq<bool>, k: int)
    requires
        0 <= k <= a.len(),
        k <= b.len(),
        a.take(k) == b.take(k),
    ensures
        spec_window_after(w, a, k) == spec_window_after(w, b, k),
{
}

/// While no window over the bits of the first `q` bytes is the encoded
/// identifier, the capture only moves its window on.
pub proof fn lemma_ident_run(t: CaptureView, inputs: Seq<u8>, q: int)
    requires
        t.state == State::Ident,
        t.window.len() == 96,
        0 <= q <= inputs.len(),
        forall|k: int| 1 <= k <= 8 * q ==> !#[trigger] spec_is_ident(spec_window_after(t.window, spec_bits(inputs), k)),
    ensures
        spec_run_task(t, inputs) == spec_run_task(
            CaptureView { window: spec_window_after(t.window, spec_bits(inputs), 8 * q), ..t },
            inputs.skip(q),
        ),
    decreases q,
{
    let w = t.window;
    let bs = spec_bits(inputs);
    if q == 0 {
        assert(spec_window_after(w, bs, 0) =~= w);
        assert(inputs.skip(0) =~= inputs);
    } else {
        let x = inputs[0];
        let tail = inputs.drop_first();
        lemma_bits_concat(seq![x], tail);
        assert(seq![x] + tail =~= inputs);
        let bx = spec_bits(seq![x]);
        assert(bs == bx + spec_bits(tail));
        lemma_head_bits_of_byte(x);
        assert forall|k: int| 1 <= k <= 8 implies !#[trigger] spec_is_ident(spec_window_after(w, spec_head_bits(x, 8), k)) by {
            assert(bx.take(k) =~= bs.take(k));
            lemma_window_prefix(w, bx, bs, k);
        }
        lemma_search_bits(w, x, 8, 0);
        let w1 = spec_window_after(w, bx, 8);
        assert(w1 == spec_window_after(w, bs, 8)) by {
            assert(bx.take(8) =~= bs.take(8));
        }
        let t1 = CaptureView { window: w1, ..t };
        assert(spec_step(t, x) == (t1, None::<Seq<u8>>));
        assert(bs.skip(8) =~= spec_bits(tail));
        assert forall|k: int| 1 <= k <= 8 * (q - 1) implies !#[trigger] spec_is_ident(spec_window_after(t1.window, spec_bits(tail), k)) by {
            lemma_window_after_after(w, bs, 8, k);
        }
        lemma_ident_run(t1, tail, q - 1);
        lemma_window_after_after(w, bs, 8, 8 * (q - 1));
        assert(tail.skip(q - 1) =~= inputs.skip(q));
    }
}

/// The byte in which the encoded identifier first shows: the capture goes on
/// to read the length, with the bits of the byte after the identifier
/// waiting.
pub proof fn lemma_match_byte(t: CaptureView, x: u8, i0: int)
    requires
        t.state == State::Ident,
        t.window.len() == 96,
        1 <= i0 <= 8,
        spec_is_ident(spec_window_after(t.window, spec_bits(seq![x]), i0)),
        forall|k: int| 1 <= k < i0 ==> !#[trigger] spec_is_ident(spec_window_after(t.window, spec_bits(seq![x]), k)),
    ensures
        spec_step(t, x) == (
            CaptureView {
                state: State::Len,
                window: spec_window_after(t.window, spec_bits(seq![x]), i0),
                pending: spec_bits(seq![x]).skip(i0),
                ..t
            },
            None::<Seq<u8>>,
        ),
{
    lemma_head_bits_of_byte(x);
    lemma_search_bits(t.window, x, 8, i0);
    let info = spec_search(t.window, x, 8).1->0;
    assert(spec_pending_of(info) =~= Seq::new(info.offset as nat, |j: int| spec_bit(info.head, j as u8)));
}

/// While no threshold is reached, the capture realigns each byte and keeps
/// it.
pub proof fn lemma_run_steps(t: CaptureView, inputs: Seq<u8>, q: int)
    requires
        t.state != State::Ident,
        t.pending.len() < 8,
        0 <= q <= inputs.len(),
        t.state == State::Len ==> t.data.len() + q < 6,
        t.state == State::Data ==> t.data.len() + q < t.target,
    ensures
        spec_run_task(t, inputs) == spec_run_task(
            CaptureView {
                pending: spec_realign_all(t.pending, inputs.take(q)).1,
                data: t.data + spec_realign_all(t.pending, inputs.take(q)).0,
                ..t
            },
            inputs.skip(q),
        ),
    decreases q,
{
    if q == 0 {
        assert(inputs.take(0) =~= Seq::<u8>::empty());
        assert(t.data + Seq::<u8>::empty() =~= t.data);
        assert(inputs.skip(0) =~= inputs);
    } else {
        let x = inputs[0];
        let tail = inputs.drop_first();
        let (out, p) = spec_realign(t.pending, x);
        lemma_realign_step(t.pending, x);
        let t1 = CaptureView { pending: p, data: t.data.push(out), ..t };
        assert(spec_step(t, x) == (t1, None::<Seq<u8>>));
        lemma_run_steps(t1, tail, q - 1);
        assert(inputs.take(q)[0] == x);
        assert(inputs.take(q).drop_first() =~= tail.take(q - 1));
        let ra = spec_realign_all(p, tail.take(q - 1));
        assert(t.data.push(out) + ra.0 =~= t.data + (seq![out] + ra.0));
        assert(tail.skip(q - 1) =~= inputs.skip(q));
    }
}

/// Realigning one byte more appends one byte.
pub proof fn lemma_realign_push(pending: Seq<bool>, a: Seq<u8>, x: u8)
    ensures
        spec_realign_all(pending, a.push(x)) == (
            spec_realign_all(pending, a).0.push(spec_realign(spec_realign_all(pending, a).1, x).0),
            spec_realign(spec_realign_all(pending, a).1, x).1,
        ),
    decreases a.len(),
{
    if a.len() == 0 {
        assert(a.push(x).drop_first() =~= Seq::<u8>::empty());
        assert(a.push(x)[0] == x);
        let (o, p) = spec_realign(pending, x);
        assert(spec_realign_all(p, Seq::<u8>::empty()) == (Seq::<u8>::empty(), p));
        assert(spec_realign_all(pending, a.push(x)) == (seq![o] + Seq::<u8>::empty(), p));
        assert(spec_realign_all(pending, a) == (Seq::<u8>::empty(), pending));
        assert(seq![o] + Seq::<u8>::empty() =~= Seq::<u8>::empty().push(o));
    } else {
        let (o, p) = spec_realign(pending, a[0]);
        assert(a.push(x)[0] == a[0]);
        assert(a.push(x).drop_first() =~= a.drop_first().push(x));
        lemma_realign_push(p, a.drop_first(), x);
        let ra = spec_realign_all(p, a.drop_first());
        let (o2, p2) = spec_realign(ra.1, x);
        assert(spec_realign_all(pending, a) == (seq![o] + ra.0, ra.1));
        assert(spec_realign_all(p, a.push(x).drop_first()) == (ra.0.push(o2), p2));
        assert(spec_realign_all(pending, a.push(x)) == (seq![o] + ra.0.push(o2), p2));
        assert(seq![o] + ra.0.push(o2) =~= (seq![o] + ra.0).push(o2));
    }
}

/// When the waiting bits and the bits of `inputs` begin with the bits of
/// `e`, realigning the first `q` bytes of `inputs` gives the first `q` bytes
/// of `e`, and what waits, with the rest of `inputs`, is the rest of the
/// bits.
pub proof fn lemma_stream(pending: Seq<bool>, inputs: Seq<u8>, e: Seq<u8>, q: int)
    requires
        pending.len() < 8,
        (pending + spec_bits(inputs)).len() >= 8 * e.len(),
        (pending + spec_bits(inputs)).take(8 * e.len() as int) == spec_bits(e),
        0 <= q <= e.len(),
    ensures
        q <= inputs.len(),
        spec_realign_all(pending, inputs.take(q)).0 == e.take(q),
        spec_realign_all(pending, inputs.take(q)).1 + spec_bits(inputs.skip(q)) == (pending + spec_bits(inputs)).skip(8 * q),
        spec_realign_all(pending, inputs.take(q)).1.len() == pending.len(),
{
    let all = pending + spec_bits(inputs);
    let ra = spec_realign_all(pending, inputs.take(q));
    lemma_realign_keeps_bits(pending, inputs.take(q));
    lemma_bits_concat(inputs.take(q), inputs.skip(q));
    assert(inputs.take(q) + inputs.skip(q) =~= inputs);
    assert(spec_bits(ra.0) + ra.1 + spec_bits(inputs.skip(q)) =~= all);
    assert(spec_bits(ra.0).len() == 8 * q);
    assert(spec_bits(ra.0) =~= all.take(8 * q));
    lemma_bits_concat(e.take(q), e.skip(q));
    assert(e.take(q) + e.skip(q) =~= e);
    assert(all.take(8 * q) =~= spec_bits(e).take(8 * q));
    assert(spec_bits(e.take(q)) =~= spec_bits(e).take(8 * q));
    lemma_pack_bits(ra.0);
    lemma_pack_bits(e.take(q));
    assert(ra.1 + spec_bits(inputs.skip(q)) =~= all.skip(8 * q));
}

/// Reading the payload: when the waiting bits and the bytes that follow
/// begin with the bits of `e`, as many bytes as the capture waits for, the
/// capture hands out `e` first.
pub proof fn lemma_data_phase(t: CaptureView, inputs: Seq<u8>, e: Seq<u8>)
    requires
        t.state == State::Data,
        t.data.len() == 0,
        t.target == e.len(),
        e.len() > 0,
        t.pending.len() < 8,
        (t.pending + spec_bits(inputs)).len() >= 8 * e.len(),
        (t.pending + spec_bits(inputs)).take(8 * e.len() as int) == spec_bits(e),
    ensures
        spec_run_task(t, inputs).1.len() >= 1,
        spec_run_task(t, inputs).1[0] == e,
{
    let q = e.len() - 1;
    let p = t.pending;
    lemma_stream(p, inputs, e, q + 1);
    lemma_stream(p, inputs, e, q);
    lemma_run_steps(t, inputs, q);
    let ra = spec_realign_all(p, inputs.take(q));
    let tq = CaptureView { pending: ra.1, data: t.data + ra.0, ..t };
    assert(tq.data =~= e.take(q));
    let rest = inputs.skip(q);
    let z = rest[0];
    assert(z == inputs[q]);
    lemma_realign_push(p, inputs.take(q), z);
    assert(inputs.take(q).push(z) =~= inputs.take(q + 1));
    let (out, p2) = spec_realign(ra.1, z);
    assert(tq.data.push(out) =~= e) by {
        assert(e.take(q + 1) =~= e);
        assert(e.take(q).push(out) =~= spec_realign_all(p, inputs.take(q + 1)).0);
    }
    assert(spec_step(tq, z) == (spec_capture_start(), Some(e)));
    assert(spec_run_task(tq, rest).1 == seq![e] + spec_run_task(spec_capture_start(), rest.drop_first()).1);
}

/// The length bytes of a frame read back to its length.
proof fn lemma_len_bytes_read(n: nat)
    requires
        n <= 0xffff,
    ensures
        spec_le_u16(spec_len_bytes(n)) == n,
{
}

/// Reading the length, then the payload: when the waiting bits and the
/// bytes that follow begin with the encoded length and the encoded payload,
/// the capture hands out the encoded payload first.
pub proof fn lemma_len_phase(t: CaptureView, inputs: Seq<u8>, payload: Seq<u8>)
    requires
        t.state == State::Len,
        t.data.len() == 0,
        t.pending.len() < 8,
        payload.len() <= 0xffff,
        ({
            let e = spec_ecc_encode(0, spec_len_bytes(payload.len())) + spec_ecc_encode(0, payload);
            &&& (t.pending + spec_bits(inputs)).len() >= 8 * e.len()
            &&& (t.pending + spec_bits(inputs)).take(8 * e.len() as int) == spec_bits(e)
        }),
    ensures
        spec_run_task(t, inputs).1.len() >= 1,
        spec_run_task(t, inputs).1[0] == spec_ecc_encode(0, payload),
{
    let n = payload.len();
    let el = spec_ecc_encode(0, spec_len_bytes(n));
    let ep = spec_ecc_encode(0, payload);
    let e = el + ep;
    let p = t.pending;
    assert(el.len() == 6);
    lemma_stream(p, inputs, e, 6);
    lemma_stream(p, inputs, e, 5);
    lemma_run_steps(t, inputs, 5);
    let ra = spec_realign_all(p, inputs.take(5));
    let t5 = CaptureView { pending: ra.1, data: t.data + ra.0, ..t };
    assert(t5.data =~= e.take(5));
    let rest = inputs.skip(5);
    let y = rest[0];
    assert(y == inputs[5]);
    lemma_realign_push(p, inputs.take(5), y);
    assert(inputs.take(5).push(y) =~= inputs.take(6));
    let (out, p6) = spec_realign(ra.1, y);
    let d = t5.data.push(out);
    assert(d =~= el) by {
        assert(e.take(6) =~= el);
        assert(e.take(5).push(out) =~= spec_realign_all(p, inputs.take(6)).0);
    }
    lemma_ecc_round_trip(0, spec_len_bytes(n));
    lemma_len_bytes_read(n);
    assert(spec_le_u16(spec_ecc_decode(0, d)) == n);
    lemma_realign_step(ra.1, y);
    if n == 0 {
        assert(ep =~= Seq::<u8>::empty());
        assert(spec_step(t5, y) == (spec_capture_start(), Some(Seq::<u8>::empty())));
        assert(spec_run_task(t5, rest).1 == seq![Seq::<u8>::empty()] + spec_run_task(spec_capture_start(), rest.drop_first()).1);
    } else {
        let td = CaptureView { state: State::Data, pending: p6, data: Seq::empty(), target: 3 * n, ..t5 };
        assert(spec_step(t5, y) == (td, None::<Seq<u8>>));
        assert(rest.drop_first() =~= inputs.skip(6));
        assert(spec_run_task(t5, rest) == spec_run_task(td, inputs.skip(6)));
        // what waits after the length, with the bytes after it, starts with the payload
        let all = p + spec_bits(inputs);
        assert(p6 == spec_realign_all(p, inputs.take(6)).1);
        assert(p6 + spec_bits(inputs.skip(6)) == all.skip(48));
        lemma_bits_concat(el, ep);
        assert(all.take(8 * e.len() as int) == spec_bits(el) + spec_bits(ep));
        assert(spec_bits(el).len() == 48);
        assert(e.len() == 6 + ep.len());
        assert forall|j: int| 0 <= j < 8 * ep.len() implies #[trigger] all.skip(48)[j] == spec_bits(ep)[j] by {
            assert(all.skip(48)[j] == all[48 + j]);
            assert(all[48 + j] == all.take(8 * e.len() as int)[48 + j]);
            assert((spec_bits(el) + spec_bits(ep))[48 + j] == spec_bits(ep)[j]);
        }
        assert((p6 + spec_bits(inputs.skip(6))).take(8 * ep.len() as int) =~= spec_bits(ep));
        lemma_data_phase(td, inputs.skip(6), ep);
    }
}

/// The window of 96 bits that a fresh capture starts with.
pub open spec fn spec_empty_window() -> Seq<bool> {
    Seq::new(96, |_i: int| false)
}

/// Where the frame's identifier ends, the window holds the encoded
/// identifier, which decodes to the identifier.
proof fn lemma_window_at_ident(pre: Seq<bool>, payload: Seq<u8>, post: Seq<bool>, b: Seq<bool>)
    requires
        b == pre + spec_bits(spec_frame_encode(payload)) + post,
    ensures
        spec_is_ident(spec_window_after(spec_empty_window(), b, pre.len() as int + 96)),
{
    let n = payload.len();
    let ei = spec_ecc_encode(0, spec_frame_ident());
    let e = spec_ecc_encode(0, spec_len_bytes(n)) + spec_ecc_encode(0, payload);
    let f = spec_frame_encode(payload);
    assert(f =~= ei + e);
    lemma_bits_concat(ei, e);
    let kstar: int = pre.len() as int + 96;
    let w = spec_window_after(spec_empty_window(), b, kstar);
    assert forall|j: int| 0 <= j < 96 implies #[trigger] w[j] == spec_bits(ei)[j] by {
        assert(w[j] == b[pre.len() + j]);
        assert(b[pre.len() + j] == spec_bits(f)[j]);
    }
    assert(w =~= spec_bits(ei));
    lemma_pack_bits(ei);
    lemma_ecc_round_trip(0, spec_frame_ident());
}

/// After the frame's identifier come the bits of its encoded length and
/// payload.
proof fn lemma_after_ident(pre: Seq<bool>, payload: Seq<u8>, post: Seq<bool>, b: Seq<bool>)
    requires
        b == pre + spec_bits(spec_frame_encode(payload)) + post,
    ensures
        ({
            let e = spec_ecc_encode(0, spec_len_bytes(payload.len())) + spec_ecc_encode(0, payload);
            &&& b.skip(pre.len() as int + 96).len() >= 8 * e.len()
            &&& b.skip(pre.len() as int + 96).take(8 * e.len() as int) == spec_bits(e)
        }),
{
    let n = payload.len();
    let ei = spec_ecc_encode(0, spec_frame_ident());
    let e = spec_ecc_encode(0, spec_len_bytes(n)) + spec_ecc_encode(0, payload);
    let f = spec_frame_encode(payload);
    assert(f =~= ei + e);
    lemma_bits_concat(ei, e);
    let kstar: int = pre.len() as int + 96;
    let tail = b.skip(kstar);
    assert forall|j: int| 0 <= j < 8 * e.len() implies #[trigger] tail[j] == spec_bits(e)[j] by {
        assert(tail[j] == b[kstar + j]);
        assert(b[kstar + j] == spec_bits(f)[96 + j]);
    }
    assert(tail.take(8 * e.len() as int) =~= spec_bits(e));
}

/// The byte of the stream where bit `8 * m` starts: the windows after its
/// bits are the windows of the stream.
proof fn lemma_byte_windows(stream: Seq<u8>, m: int)
    requires
        0 <= m < stream.len(),
    ensures
        ({
            let b = spec_bits(stream);
            let w = spec_window_after(spec_empty_window(), b, 8 * m);
            let bx = spec_bits(seq![stream[m]]);
            &&& b.skip(8 * m) == bx + spec_bits(stream.skip(m + 1))
            &&& forall|i: int| 1 <= i <= 8 ==> #[trigger] spec_window_after(w, bx, i) == spec_window_after(
                spec_empty_window(),
                b,
                8 * m + i,
            )
        }),
{
    let b = spec_bits(stream);
    let z = spec_empty_window();
    let s1 = stream.skip(m);
    let x = stream[m];
    let r = s1.drop_first();
    lemma_bits_concat(stream.take(m), s1);
    assert(stream.take(m) + s1 =~= stream);
    lemma_bits_concat(seq![x], r);
    assert(seq![x] + r =~= s1);
    assert(r =~= stream.skip(m + 1));
    let bx = spec_bits(seq![x]);
    assert(b.skip(8 * m) =~= bx + spec_bits(r));
    let w = spec_window_after(z, b, 8 * m);
    assert forall|i: int| 1 <= i <= 8 implies #[trigger] spec_window_after(w, bx, i) == spec_window_after(z, b, 8 * m + i) by {
        lemma_window_after_after(z, b, 8 * m, i);
        assert(b.skip(8 * m).take(i) =~= bx.take(i));
        lemma_window_prefix(w, bx, b.skip(8 * m), i);
    }
}

/// A frame anywhere in a stream is captured: when the bits of a stream of
/// bytes are some bits `pre`, then the bits of an encoded frame, then some
/// bits `post`, and no window of the stream shows the encoded identifier
/// before the frame's own identifier does, a fresh capture run over the
/// stream hands out the frame's encoded payload first. The frame may start
/// at any bit of a byte.
#[verifier::spinoff_prover]
pub proof fn lemma_capture_finds_frame(pre: Seq<bool>, payload: Seq<u8>, post: Seq<bool>, stream: Seq<u8>)
    requires
        payload.len() <= 0xffff,
        spec_bits(stream) == pre + spec_bits(spec_frame_encode(payload)) + post,
        forall|k: int|
            1 <= k < pre.len() + 96 ==> !#[trigger] spec_is_ident(
                spec_window_after(spec_empty_window(), spec_bits(stream), k),
            ),
    ensures
        spec_run_task(spec_capture_start(), stream).1.len() >= 1,
        spec_run_task(spec_capture_start(), stream).1[0] == spec_ecc_encode(0, payload),
{
    let b = spec_bits(stream);
    let z = spec_empty_window();
    let kstar: int = pre.len() as int + 96;
    let mstar: int = (kstar - 1) / 8;
    let i0: int = kstar - 8 * mstar;
    assert(b.len() == 8 * stream.len());
    assert(b.len() >= kstar) by {
        assert(spec_bits(spec_frame_encode(payload)).len() >= 96);
    }
    assert(mstar < stream.len());
    let start = spec_capture_start();
    assert(start.window == z);

    // the bytes before the one where the identifier ends move the window on
    lemma_ident_run(start, stream, mstar);
    let tm = CaptureView { window: spec_window_after(z, b, 8 * mstar), ..start };

    // the byte where the identifier ends
    let s1 = stream.skip(mstar);
    let x = stream[mstar];
    let r = stream.skip(mstar + 1);
    assert(s1[0] == x);
    assert(s1.drop_first() =~= r);
    lemma_byte_windows(stream, mstar);
    let bx = spec_bits(seq![x]);
    lemma_window_at_ident(pre, payload, post, b);
    assert(spec_is_ident(spec_window_after(tm.window, bx, i0)));
    assert forall|k: int| 1 <= k < i0 implies !#[trigger] spec_is_ident(spec_window_after(tm.window, bx, k)) by {
        assert(spec_window_after(tm.window, bx, k) == spec_window_after(z, b, 8 * mstar + k));
    }
    lemma_match_byte(tm, x, i0);
    let tl = CaptureView {
        state: State::Len,
        window: spec_window_after(tm.window, bx, i0),
        pending: bx.skip(i0),
        ..tm
    };
    assert(spec_run_task(tm, s1) == spec_run_task(tl, r));

    // what follows the identifier: the encoded length and payload
    let p = bx.skip(i0);
    assert(p + spec_bits(r) =~= b.skip(kstar)) by {
        assert(b.skip(8 * mstar) == bx + spec_bits(r));
        assert(b.skip(kstar) =~= b.skip(8 * mstar).skip(i0));
    }
    lemma_after_ident(pre, payload, post, b);
    lemma_len_phase(tl, r, payload);
}

} // verus!
