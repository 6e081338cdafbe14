//! The byte pipeline: framing, frame capture, and the bit accumulator of the
//! frequency-shift link.
pub mod frame;
pub mod ident_search;
pub mod sample_ident_search;

use vstd::prelude::*;

verus! {

/// The number of one bits among the lowest `k` bits of `byte`.
pub open spec fn spec_ones(byte: u8, k: nat) -> nat
    decreases k,
{
    if k == 0 {
        0
    } else {
        spec_ones(byte, (k - 1) as nat) + if (byte >> ((k - 1) as u8)) & 1u8 == 1u8 { 1nat } else { 0nat }
    }
}

/// `s` without its parity bytes: every eighth byte (index 7, 15, ...) is one.
pub open spec fn spec_strip_parity(s: Seq<u8>) -> Seq<u8>
    decreases s.len(),
{
    if s.len() == 0 {
        s
    } else {
        let rest = spec_strip_parity(s.drop_last());
        if s.len() % 8 == 0 {
            rest
        } else {
            rest.push(s.last())
        }
    }
}

/// The parity byte expected after seven data bytes of which `odd` had an
/// odd number of one bits.
pub open spec fn spec_parity_byte(odd: u8) -> u8 {
    0b10101000u8 | odd
}

/// An accumulator as its parts.
pub struct AccumulatorView {
    /// The number of bytes (data and parity) the message holds; 0 while
    /// the next byte is to be read as the length.
    pub data_len: nat,
    /// The bytes of the message so far.
    pub accum: Seq<u8>,
    /// The bits of the byte being assembled, lowest bit first.
    pub current_byte: u8,
    /// The number of bits in `current_byte`.
    pub current_byte_idx: u8,
    /// The number of data bytes since the last parity byte with an odd
    /// number of one bits (counted modulo 256).
    pub current_parity_sum: u8,
}

/// One byte into the accumulator: the accumulator after it, and the
/// message (without its parity bytes) when the byte completed it.
///
/// The first byte of a message gives its length (the byte shifted right
/// once). Every eighth byte must be the parity byte; a wrong one drops the
/// message.
pub open spec fn spec_accumulate_byte(s: AccumulatorView, byte: u8) -> (AccumulatorView, Option<Seq<u8>>) {
    if s.data_len == 0 {
        (AccumulatorView { data_len: (byte >> 1u8) as nat, ..s }, None)
    } else if (s.accum.len() + 1) % 8 == 0 && byte != spec_parity_byte(s.current_parity_sum) {
        (AccumulatorView { current_parity_sum: 0, accum: Seq::empty(), data_len: 0, ..s }, None)
    } else {
        let parity = if (s.accum.len() + 1) % 8 == 0 {
            0u8
        } else if spec_ones(byte, 8) % 2 == 1 {
            if s.current_parity_sum == 255 { 0u8 } else { (s.current_parity_sum + 1) as u8 }
        } else {
            s.current_parity_sum
        };
        let accum = s.accum.push(byte);
        if accum.len() == s.data_len {
            (
                AccumulatorView { current_parity_sum: parity, accum: Seq::empty(), data_len: 0, ..s },
                Some(spec_strip_parity(accum)),
            )
        } else {
            (AccumulatorView { current_parity_sum: parity, accum: accum, ..s }, None)
        }
    }
}

/// One bit into the accumulator. Nothing starts before the first one bit;
/// bits fill a byte lowest bit first, and a full byte goes to
/// `spec_accumulate_byte` when the next bit arrives.
pub open spec fn spec_accumulate_bit(s: AccumulatorView, bit: bool) -> (AccumulatorView, Option<Seq<u8>>) {
    if s.data_len == 0 && s.current_byte == 0 && !bit {
        (s, None)
    } else {
        let (t, msg) = if s.current_byte_idx == 8 {
            let (a, m) = spec_accumulate_byte(s, s.current_byte);
            (AccumulatorView { current_byte_idx: 0, current_byte: 0, ..a }, m)
        } else {
            (s, None)
        };
        (
            AccumulatorView {
                current_byte: t.current_byte | ((if bit { 1u8 } else { 0u8 }) << t.current_byte_idx),
                current_byte_idx: (t.current_byte_idx + 1) as u8,
                ..t
            },
            msg,
        )
    }
}

/// Accumulates bits into bytes and bytes into messages with parity bytes.
#[derive(Debug)]
pub struct ByteAccumulator {
    data_len: usize,
    accum: Vec<u8>,
    current_byte: u8,
    current_byte_idx: u8,
    current_parity_sum: u8,
}

impl View for ByteAccumulator {
    type V = AccumulatorView;

    closed spec fn view(&self) -> AccumulatorView {
        AccumulatorView {
            data_len: self.data_len as nat,
            accum: self.accum@,
            current_byte: self.current_byte,
            current_byte_idx: self.current_byte_idx,
            current_parity_sum: self.current_parity_sum,
        }
    }
}

impl ByteAccumulator {
    /// The message is shorter than its length, and a byte holds at most
    /// eight bits.
    pub closed spec fn inv(&self) -> bool {
        &&& self.accum@.len() < self.data_len || (self.data_len == 0 && self.accum@.len() == 0)
        &&& self.current_byte_idx <= 8
    }

    /// An accumulator waiting for the first one bit.
    pub fn new() -> (r: Self)
        ensures
            r.inv(),
            r@ == (AccumulatorView {
                data_len: 0,
                accum: Seq::empty(),
                current_byte: 0,
                current_byte_idx: 0,
                current_parity_sum: 0,
            }),
    {
        Self { data_len: 0, accum: Vec::new(), current_byte: 0, current_byte_idx: 0, current_parity_sum: 0 }
    }

    /// Takes one bit; gives a message when it completed one.
    pub fn accumulate_bit(&mut self, bit: bool) -> (r: Option<Vec<u8>>)
        requires
            old(self).inv(),
        ensures
            final(self).inv(),
            final(self)@ == spec_accumulate_bit(old(self)@, bit).0,
            match r {
                Some(m) => spec_accumulate_bit(old(self)@, bit).1 == Some(m@),
                None => spec_accumulate_bit(old(self)@, bit).1 is None,
            },
    {
        if self.data_len == 0 && self.current_byte == 0 && !bit {
            return None;
        }
        let mut msg = None;
        if self.current_byte_idx == 8 {
            msg = self.accumulate_byte(self.current_byte);
            self.current_byte_idx = 0;
            self.current_byte = 0;
        }
        let b: u8 = if bit { 1 } else { 0 };
        self.current_byte = self.current_byte | (b << self.current_byte_idx);
        self.current_byte_idx = self.current_byte_idx + 1;
        msg
    }

    /// Takes one byte; gives a message when it completed one.
    pub fn accumulate_byte(&mut self, byte: u8) -> (r: Option<Vec<u8>>)
        requires
            old(self).inv(),
        ensures
            final(self).inv(),
            final(self)@ == spec_accumulate_byte(old(self)@, byte).0,
            match r {
                Some(m) => spec_accumulate_byte(old(self)@, byte).1 == Some(m@),
                None => spec_accumulate_byte(old(self)@, byte).1 is None,
            },
    {
        if self.data_len == 0 {
            self.data_len = (byte >> 1) as usize;
            return None;
        }
        if (self.accum.len() + 1) % 8 == 0 {
            if byte != 0b10101000 | self.current_parity_sum {
                self.current_parity_sum = 0;
                self.accum.clear();
                self.data_len = 0;
                return None;
            }
            self.current_parity_sum = 0;
        } else {
            let mut ones: u8 = 0;
            let mut i: u8 = 0;
            while i < 8
                invariant
                    i <= 8,
                    ones == spec_ones(byte, i as nat),
                    ones <= i,
                decreases 8 - i,
            {
                if byte >> i & 1 == 1 {
                    ones += 1;
                }
                i += 1;
            }
            if ones % 2 == 1 {
                self.current_parity_sum = self.current_parity_sum.wrapping_add(1);
            }
        }
        self.accum.push(byte);
        if self.accum.len() == self.data_len {
            let message = strip_parity(&self.accum);
            self.accum.clear();
            self.data_len = 0;
            return Some(message);
        }
        None
    }
}

/// The bytes of `accum` without every eighth byte.
fn strip_parity(accum: &Vec<u8>) -> (r: Vec<u8>)
    ensures
        r@ == spec_strip_parity(accum@),
{
    let mut r: Vec<u8> = Vec::new();
    let mut i: usize = 0;
    while i < accum.len()
        invariant
            i <= accum.len(),
            r@ == spec_strip_parity(accum@.take(i as int)),
        decreases accum.len() - i,
    {
        assert(accum@.take(i as int + 1).drop_last() =~= accum@.take(i as int));
        if (i + 1) % 8 != 0 {
            r.push(accum[i]);
        }
        i += 1;
    }
    assert(accum@.take(i as int) =~= accum@);
    r
}

/// Whether `byte` has an odd number of one bits.
pub open spec fn spec_odd_byte(byte: u8) -> bool {
    spec_ones(byte, 8) % 2 == 1
}

/// The number of bytes of `s` with an odd number of one bits.
pub open spec fn spec_odd_count(s: Seq<u8>) -> nat
    decreases s.len(),
{
    if s.len() == 0 {
        0
    } else {
        spec_odd_count(s.drop_last()) + if spec_odd_byte(s.last()) { 1nat } else { 0nat }
    }
}

/// The bytes sent for the message `msg`: after each block of seven data bytes
/// comes the byte `0b10101000` with the number of odd bytes of the block in
/// its low bits.
pub open spec fn spec_with_parity(msg: Seq<u8>) -> Seq<u8> {
    Seq::new(
        msg.len() + msg.len() / 7,
        |i: int|
            if i % 8 == 7 {
                0b10101000u8 | (spec_odd_count(msg.subrange(7 * (i / 8), 7 * (i / 8) + 7)) as u8)
            } else {
                msg[7 * (i / 8) + i % 8]
            },
    )
}

/// Bytes into the accumulator one after the other: the accumulator after
/// them and the messages they completed, in order.
pub open spec fn spec_accumulate_bytes(s: AccumulatorView, bytes: Seq<u8>) -> (AccumulatorView, Seq<Seq<u8>>)
    decreases bytes.len(),
{
    if bytes.len() == 0 {
        (s, Seq::empty())
    } else {
        let (t, ms) = spec_accumulate_bytes(s, bytes.drop_last());
        let (u, m) = spec_accumulate_byte(t, bytes.last());
        (u, match m {
            Some(x) => ms.push(x),
            None => ms,
        })
    }
}

/// Seven or fewer bytes hold at most as many odd bytes.
proof fn lemma_odd_count_le(s: Seq<u8>)
    ensures
        spec_odd_count(s) <= s.len(),
    decreases s.len(),
{
    if s.len() > 0 {
        lemma_odd_count_le(s.drop_last());
    }
}

/// The parity byte of a block of at most seven bytes is `0b10101000` plus
/// the count.
proof fn lemma_parity_or(c: u8)
    requires
        c <= 7,
    ensures
        0b10101000u8 | c == 0b10101000u8 + c,
{
    assert(c <= 7 ==> 0b10101000u8 | c == 0b10101000u8 + c) by (bit_vector);
}

/// The accumulator after the length byte and the first `j` bytes of a
/// message sent with its parity bytes: the bytes so far are held, and the
/// count stands at the odd data bytes of the current block.
proof fn lemma_parity_prefix(s: AccumulatorView, len_byte: u8, msg: Seq<u8>, j: int)
    requires
        s.data_len == 0,
        s.accum.len() == 0,
        s.current_parity_sum == 0,
        msg.len() >= 1,
        (len_byte >> 1u8) as int == spec_with_parity(msg).len(),
        0 <= j < spec_with_parity(msg).len(),
    ensures
        ({
            let body = spec_with_parity(msg);
            let r = spec_accumulate_bytes(s, seq![len_byte] + body.take(j));
            &&& r.1.len() == 0
            &&& r.0.data_len == body.len()
            &&& r.0.accum == body.take(j)
            &&& r.0.current_parity_sum as int == spec_odd_count(msg.subrange(7 * (j / 8), 7 * (j / 8) + j % 8))
        }),
    decreases j,
{
    let body = spec_with_parity(msg);
    let m = msg.len() as int;
    let n = body.len() as int;
    let q = m / 7;
    assert(n == 8 * q + m % 7);
    if j == 0 {
        assert(seq![len_byte] + body.take(0) =~= seq![len_byte]);
        assert(seq![len_byte].drop_last() =~= Seq::<u8>::empty());
        assert(spec_accumulate_bytes(s, Seq::<u8>::empty()) == (s, Seq::<Seq<u8>>::empty()));
        assert(seq![len_byte].last() == len_byte);
        assert(msg.subrange(0, 0) =~= Seq::<u8>::empty());
        assert(body.take(0) =~= Seq::<u8>::empty());
    } else {
        let i = j - 1;
        lemma_parity_prefix(s, len_byte, msg, i);
        let xs = seq![len_byte] + body.take(j);
        assert(xs.drop_last() =~= seq![len_byte] + body.take(i));
        assert(xs.last() == body[i]);
        let t = spec_accumulate_bytes(s, xs.drop_last()).0;
        assert(spec_accumulate_bytes(s, xs) == ({
            let (u, mm) = spec_accumulate_byte(t, xs.last());
            (u, match mm {
                Some(x) => spec_accumulate_bytes(s, xs.drop_last()).1.push(x),
                None => spec_accumulate_bytes(s, xs.drop_last()).1,
            })
        }));
        let b = i / 8;
        let pos = i % 8;
        assert(i == 8 * b + pos);
        assert(t.accum.len() == i);
        assert(t.data_len == n);
        assert(body.take(i).push(body[i]) =~= body.take(j));
        if pos == 7 {
            assert(b < q) by (nonlinear_arith)
                requires i == 8 * b + 7, i < n, n == 8 * q + m % 7, 0 <= m % 7 < 7, b >= 0, q >= 0;
            assert(7 * b + 7 <= m) by (nonlinear_arith)
                requires b < q, m == 7 * q + m % 7, m % 7 >= 0;
            let blk = msg.subrange(7 * b, 7 * b + 7);
            lemma_odd_count_le(blk);
            lemma_parity_or(spec_odd_count(blk) as u8);
            assert(body[i] == 0b10101000u8 | (spec_odd_count(blk) as u8));
            assert(t.current_parity_sum as int == spec_odd_count(blk));
            assert((t.accum.len() + 1) % 8 == 0);
            assert(j / 8 == b + 1 && j % 8 == 0);
            assert(msg.subrange(7 * (j / 8), 7 * (j / 8) + j % 8) =~= Seq::<u8>::empty());
        } else {
            assert(7 * b + pos < m) by (nonlinear_arith)
                requires i == 8 * b + pos, 0 <= pos < 7, i < n, n == 8 * q + m % 7, m == 7 * q + m % 7,
                    0 <= m % 7 < 7, b >= 0, q >= 0;
            assert(body[i] == msg[7 * b + pos]);
            assert(j / 8 == b && j % 8 == pos + 1);
            let before = msg.subrange(7 * b, 7 * b + pos);
            let after = msg.subrange(7 * b, 7 * b + pos + 1);
            assert(after.drop_last() =~= before);
            assert(after.last() == msg[7 * b + pos]);
            assert(spec_odd_count(after) == spec_odd_count(before) + if spec_odd_byte(msg[7 * b + pos]) { 1nat } else { 0nat });
            lemma_odd_count_le(before);
            assert(before.len() == pos);
            assert((t.accum.len() + 1) % 8 != 0);
        }
        assert(j < n);
    }
}

/// A message sent with correct parity bytes is delivered: from an
/// accumulator waiting for a length, with its parity count at zero, the
/// length byte (the number of bytes that follow, shifted left once) and the
/// message with a parity byte after every seven data bytes give exactly
/// one message, the data bytes without the parity bytes, and leave the
/// accumulator waiting for the next length.
pub proof fn lemma_parity_message_delivered(s: AccumulatorView, len_byte: u8, msg: Seq<u8>)
    requires
        s.data_len == 0,
        s.accum.len() == 0,
        s.current_parity_sum == 0,
        msg.len() >= 1,
        (len_byte >> 1u8) as int == spec_with_parity(msg).len(),
    ensures
        spec_accumulate_bytes(s, seq![len_byte] + spec_with_parity(msg)).1 == seq![msg],
        spec_accumulate_bytes(s, seq![len_byte] + spec_with_parity(msg)).0.data_len == 0,
        spec_accumulate_bytes(s, seq![len_byte] + spec_with_parity(msg)).0.accum.len() == 0,
{
    let body = spec_with_parity(msg);
    let m = msg.len() as int;
    let n = body.len() as int;
    let q = m / 7;
    let i = n - 1;
    assert(n == 8 * q + m % 7);
    lemma_parity_prefix(s, len_byte, msg, i);
    let xs = seq![len_byte] + body;
    assert(xs.drop_last() =~= seq![len_byte] + body.take(i));
    assert(xs.last() == body[i]);
    assert(body.take(i).push(body[i]) =~= body);
    let t = spec_accumulate_bytes(s, xs.drop_last()).0;
    assert(spec_accumulate_bytes(s, xs) == ({
        let (u, mm) = spec_accumulate_byte(t, xs.last());
        (u, match mm {
            Some(x) => spec_accumulate_bytes(s, xs.drop_last()).1.push(x),
            None => spec_accumulate_bytes(s, xs.drop_last()).1,
        })
    }));
    assert(t.data_len == n);
    assert(t.accum.len() == i);
    let b = i / 8;
    let pos = i % 8;
    assert(i == 8 * b + pos);
    if pos == 7 {
        assert(b < q) by (nonlinear_arith)
            requires i == 8 * b + 7, i < n, n == 8 * q + m % 7, 0 <= m % 7 < 7, b >= 0, q >= 0;
        assert(7 * b + 7 <= m) by (nonlinear_arith)
            requires b < q, m == 7 * q + m % 7, m % 7 >= 0;
        let blk = msg.subrange(7 * b, 7 * b + 7);
        lemma_odd_count_le(blk);
        lemma_parity_or(spec_odd_count(blk) as u8);
    } else {
        assert(7 * b + pos < m) by (nonlinear_arith)
            requires i == 8 * b + pos, 0 <= pos < 7, i < n, n == 8 * q + m % 7, m == 7 * q + m % 7,
                0 <= m % 7 < 7, b >= 0, q >= 0;
        let before = msg.subrange(7 * b, 7 * b + pos);
        lemma_odd_count_le(before);
    }
    lemma_strip_with_parity(msg, n);
    assert(body.take(n) =~= body);
    assert(7 * (n / 8) + n % 8 == m) by (nonlinear_arith)
        requires n == 8 * q + m % 7, m == 7 * q + m % 7, 0 <= m % 7 < 7, q >= 0;
    assert(msg.take(m) =~= msg);
    assert(t.accum.push(body[i]) =~= body);
    assert(spec_accumulate_bytes(s, xs.drop_last()).1 =~= Seq::<Seq<u8>>::empty());
}

/// Taking the parity bytes out of the first `j` bytes sent for `msg` gives
/// the data bytes among them.
proof fn lemma_strip_with_parity(msg: Seq<u8>, j: int)
    requires
        0 <= j <= spec_with_parity(msg).len(),
    ensures
        spec_strip_parity(spec_with_parity(msg).take(j)) == msg.take(7 * (j / 8) + j % 8),
    decreases j,
{
    let body = spec_with_parity(msg);
    let m = msg.len() as int;
    let n = body.len() as int;
    let q = m / 7;
    assert(n == 8 * q + m % 7);
    if j == 0 {
        assert(body.take(0) =~= Seq::<u8>::empty());
        assert(msg.take(0) =~= Seq::<u8>::empty());
    } else {
        let i = j - 1;
        lemma_strip_with_parity(msg, i);
        let s = body.take(j);
        assert(s.drop_last() =~= body.take(i));
        assert(s.last() == body[i]);
        let b = i / 8;
        let pos = i % 8;
        assert(i == 8 * b + pos);
        if pos == 7 {
            assert(j % 8 == 0 && j / 8 == b + 1);
        } else {
            assert(j % 8 == pos + 1 && j / 8 == b);
            assert(7 * b + pos < m) by (nonlinear_arith)
                requires i == 8 * b + pos, 0 <= pos < 7, i < n, n == 8 * q + m % 7, m == 7 * q + m % 7,
                    0 <= m % 7 < 7, b >= 0, q >= 0;
            assert(msg.take(7 * b + pos).push(msg[7 * b + pos]) =~= msg.take(7 * b + pos + 1));
        }
        if j == n {
            assert(7 * (j / 8) + j % 8 == m) by (nonlinear_arith)
                requires j == n, n == 8 * q + m % 7, m == 7 * q + m % 7, 0 <= m % 7 < 7, q >= 0;
        }
    }
}

} // verus!
