//! Conversions between bytes and strings of binary digits.
use vstd::prelude::*;
use vstd::string::StringExecFns;
use vstd::string::StringSliceAdditionalSpecFns;

verus! {

/// The binary digit of bit `j` (0 = most significant) of `byte`.
pub open spec fn spec_bin_digit(byte: u8, j: int) -> char {
    if (byte >> ((7 - j) as u8)) & 1 == 1 { '1' } else { '0' }
}

/// The bytes of `arr` written out in binary, eight digits per byte, most
/// significant bit first.
pub open spec fn spec_u8_to_bin(arr: Seq<u8>) -> Seq<char> {
    Seq::new(8 * arr.len(), |i: int| spec_bin_digit(arr[i / 8], i % 8))
}

/// The value of the `m` binary digits of `s` that start at `start`.
pub open spec fn spec_bin_value(s: Seq<char>, start: int, m: int) -> int
    decreases m,
{
    if m <= 0 {
        0
    } else {
        2 * spec_bin_value(s, start, m - 1) + (if s[start + m - 1] == '1' { 1int } else { 0int })
    }
}

/// `s` holds only binary digits.
pub open spec fn spec_is_bin(s: Seq<char>) -> bool {
    forall|i: int| 0 <= i < s.len() ==> #[trigger] s[i] == '0' || s[i] == '1'
}

/// The bytes that a string of binary digits spells, eight digits per byte;
/// digits after the last whole byte are dropped.
pub open spec fn spec_bin_to_u8(s: Seq<char>) -> Seq<u8> {
    Seq::new(s.len() / 8, |k: int| spec_byte_at(s, k))
}

/// Byte `k` of a string of binary digits: digits `8k..8k+8`.
pub open spec fn spec_byte_at(s: Seq<char>, k: int) -> u8 {
    spec_bin_value(s, 8 * k, 8) as u8
}

/// The eight binary digits of `byte`, most significant first.
fn push_byte_bits(out: &mut String, byte: u8)
    ensures
        final(out)@ == old(out)@ + Seq::new(8, |j: int| spec_bin_digit(byte, j)),
{
    let ghost start = out@;
    let mut j: u8 = 0;
    while j < 8
        invariant
            j <= 8,
            out@ == start + Seq::new(j as nat, |m: int| spec_bin_digit(byte, m)),
        decreases 8 - j,
    {
        let bit = (byte >> (7 - j)) & 1;
        if bit == 1 {
            proof { reveal_strlit("1"); }
            out.append("1");
        } else {
            proof { reveal_strlit("0"); }
            out.append("0");
        }
        j += 1;
        assert(out@ =~= start + Seq::new(j as nat, |m: int| spec_bin_digit(byte, m)));
    }
}

/// Writes the bytes of `arr` as a string of binary digits, eight per byte,
/// most significant bit first.
pub fn u8_to_bin(arr: &[u8]) -> (r: String)
    ensures
        r@ == spec_u8_to_bin(arr@),
{
    let mut binary_string = String::new();
    let mut i: usize = 0;
    while i < arr.len()
        invariant
            i <= arr@.len(),
            binary_string@ == spec_u8_to_bin(arr@.take(i as int)),
        decreases arr@.len() - i,
    {
        let ghost before = binary_string@;
        push_byte_bits(&mut binary_string, arr[i]);
        i += 1;
        assert(binary_string@ =~= spec_u8_to_bin(arr@.take(i as int)));
    }
    assert(arr@.take(arr@.len() as int) =~= arr@);
    binary_string
}

/// Reads a string of binary digits as bytes, eight digits per byte; digits
/// after the last whole byte are dropped. The string must hold only `0` and
/// `1`.
pub fn bin_to_u8(bin: &str) -> (r: Vec<u8>)
    requires
        spec_is_bin(bin@),
    ensures
        r@ == spec_bin_to_u8(bin@),
{
    proof {
        assert(vstd::string::is_ascii(bin));
        vstd::string::is_ascii_spec_bytes(bin);
    }
    let bytes = bin.as_bytes();
    let n = bytes.len();
    assert(n == bin@.len());
    let mut to_return: Vec<u8> = Vec::new();
    let mut hold: u8 = 0;
    let mut x: usize = 0;
    while x < n
        invariant
            n == bin@.len(),
            bytes@ == bin.spec_bytes(),
            bin.spec_bytes() == Seq::new(bin@.len(), |i: int| bin@[i] as u8),
            spec_is_bin(bin@),
            x <= n,
            to_return@ == spec_bin_to_u8(bin@.take(8 * (x as int / 8))),
            hold as int == spec_bin_value(bin@, 8 * (x as int / 8), x as int % 8),
        decreases n - x,
    {
        let digit: u8 = if bytes[x] == 49 { 1 } else { 0 };
        assert(bin@[x as int] == '1' ==> bytes@[x as int] == 49);
        assert(bin@[x as int] == '0' ==> bytes@[x as int] == 48);
        proof {
            assert(spec_bin_value(bin@, 8 * (x as int / 8), x as int % 8) < 128) by {
                lemma_bin_value_bound(bin@, 8 * (x as int / 8), x as int % 8);
            }
        }
        hold = hold * 2 + digit;
        if x % 8 == 7 {
            to_return.push(hold);
            hold = 0;
        }
        x += 1;
        proof {
            let k = x as int / 8;
            if x % 8 == 0 {
                assert(to_return@ =~= spec_bin_to_u8(bin@.take(8 * k))) by {
                    assert forall|j: int| 0 <= j < k implies #[trigger] spec_byte_at(bin@.take(8 * k), j)
                        == spec_byte_at(bin@, j) by {
                        lemma_bin_value_prefix(bin@, bin@.take(8 * k), 8 * j, 8);
                    }
                    assert forall|j: int| 0 <= j < k - 1 implies #[trigger] spec_byte_at(bin@.take(8 * (k - 1)), j)
                        == spec_byte_at(bin@, j) by {
                        lemma_bin_value_prefix(bin@, bin@.take(8 * (k - 1)), 8 * j, 8);
                    }
                }
            }
        }
    }
    proof {
        assert(bin@.take(8 * (n as int / 8)).len() / 8 == n as int / 8);
        assert forall|j: int| 0 <= j < n / 8 implies #[trigger] spec_byte_at(bin@.take(8 * (n as int / 8)), j)
            == spec_byte_at(bin@, j) by {
            lemma_bin_value_prefix(bin@, bin@.take(8 * (n as int / 8)), 8 * j, 8);
        }
        assert(to_return@ =~= spec_bin_to_u8(bin@));
    }
    to_return
}

/// Reading back the first `m` digits of a byte written out in binary gives
/// its top `m` bits.
proof fn lemma_digits_value(a: Seq<u8>, k: int, m: int)
    requires
        0 <= k < a.len(),
        0 <= m <= 8,
    ensures
        spec_bin_value(spec_u8_to_bin(a), 8 * k, m) == (a[k] >> ((8 - m) as u8)) as int,
    decreases m,
{
    let x = a[k];
    if m == 0 {
        assert(x >> 8u8 == 0) by (bit_vector);
    } else {
        lemma_digits_value(a, k, m - 1);
        let sh = (8 - m) as u8;
        assert(sh < 8 ==> x >> sh == 2 * (x >> ((sh + 1) as u8)) + ((x >> sh) & 1)) by (bit_vector);
        let s = spec_u8_to_bin(a);
        assert(s[8 * k + m - 1] == spec_bin_digit(x, m - 1)) by {
            assert((8 * k + m - 1) / 8 == k);
            assert((8 * k + m - 1) % 8 == m - 1);
        }
        assert(((x >> sh) & 1) <= 1) by (bit_vector);
    }
}

/// Round trip: reading back bytes written out in binary gives the bytes.
pub proof fn lemma_bin_round_trip(a: Seq<u8>)
    ensures
        spec_is_bin(spec_u8_to_bin(a)),
        spec_bin_to_u8(spec_u8_to_bin(a)) == a,
{
    let s = spec_u8_to_bin(a);
    assert forall|k: int| 0 <= k < a.len() implies #[trigger] spec_byte_at(s, k) == a[k] by {
        lemma_digits_value(a, k, 8);
        let x = a[k];
        assert(x >> 0u8 == x) by (bit_vector);
    }
    assert(spec_bin_to_u8(s) =~= a);
}

/// A value of `m` binary digits is below `2^m` (here for `m < 8`).
proof fn lemma_bin_value_bound(s: Seq<char>, start: int, m: int)
    requires
        0 <= m < 8,
    ensures
        0 <= spec_bin_value(s, start, m) < (if m == 0 { 1int } else if m == 1 { 2 } else if m == 2 { 4 }
            else if m == 3 { 8 } else if m == 4 { 16 } else if m == 5 { 32 } else if m == 6 { 64 } else { 128 }),
    decreases m,
{
    if m > 0 {
        lemma_bin_value_bound(s, start, m - 1);
    }
}

/// The digits read only depend on the digits they cover.
proof fn lemma_bin_value_prefix(s: Seq<char>, t: Seq<char>, start: int, m: int)
    requires
        0 <= start,
        0 <= m,
        start + m <= t.len(),
        t.len() <= s.len(),
        forall|i: int| 0 <= i < t.len() ==> t[i] == s[i],
    ensures
        spec_bin_value(t, start, m) == spec_bin_value(s, start, m),
    decreases m,
{
    if m > 0 {
        lemma_bin_value_prefix(s, t, start, m - 1);
    }
}

/// `2` to the power `m`.
pub open spec fn spec_pow2(m: nat) -> nat
    decreases m,
{
    if m == 0 {
        1
    } else {
        2 * spec_pow2((m - 1) as nat)
    }
}

/// `v` halved (rounding down) `k` times.
pub open spec fn spec_halve(v: int, k: int) -> int
    decreases k,
{
    if k <= 0 {
        v
    } else {
        spec_halve(v, k - 1) / 2
    }
}

/// The binary digit for the bit `k` places from the low end of `v`.
pub open spec fn spec_digit_of(v: int, k: int) -> char {
    if spec_halve(v, k) % 2 == 1 { '1' } else { '0' }
}

proof fn lemma_bin_value_below_pow2(s: Seq<char>, start: int, m: nat)
    ensures
        0 <= spec_bin_value(s, start, m as int) < spec_pow2(m),
    decreases m,
{
    if m > 0 {
        lemma_bin_value_below_pow2(s, start, (m - 1) as nat);
    }
}

proof fn lemma_pow2_grows(a: nat, b: nat)
    requires
        a <= b,
    ensures
        spec_pow2(a) <= spec_pow2(b),
    decreases b,
{
    if a < b {
        lemma_pow2_grows(a, (b - 1) as nat);
    }
}

/// The value of a string of binary digits, most significant first. The
/// string must hold only `0` and `1`, at most sixteen of them.
pub fn bin_char_arr_to_usize_unchecked(bin: &str) -> (r: usize)
    requires
        spec_is_bin(bin@),
        bin@.len() <= 16,
    ensures
        r == spec_bin_value(bin@, 0, bin@.len() as int),
{
    proof {
        assert(vstd::string::is_ascii(bin));
        vstd::string::is_ascii_spec_bytes(bin);
        reveal_with_fuel(spec_pow2, 17);
    }
    let bytes = bin.as_bytes();
    let n = bytes.len();
    let mut value: usize = 0;
    let mut x: usize = 0;
    while x < n
        invariant
            n == bin@.len(),
            n <= 16,
            spec_pow2(16) == 65536,
            bytes@ == bin.spec_bytes(),
            bin.spec_bytes() == Seq::new(bin@.len(), |i: int| bin@[i] as u8),
            spec_is_bin(bin@),
            x <= n,
            value == spec_bin_value(bin@, 0, x as int),
        decreases n - x,
    {
        proof {
            lemma_bin_value_below_pow2(bin@, 0, x as nat);
            lemma_pow2_grows(x as nat, 15);
            assert(spec_pow2(15) == 32768) by {
                reveal_with_fuel(spec_pow2, 16);
            }
        }
        assert(bin@[x as int] == '1' ==> bytes@[x as int] == 49);
        assert(bin@[x as int] == '0' ==> bytes@[x as int] == 48);
        let digit: usize = if bytes[x] == 49 { 1 } else { 0 };
        value = value * 2 + digit;
        x += 1;
    }
    value
}

/// The lowest `width` bits of `value` as binary digits, most significant
/// first. `value` must not be negative.
pub fn i32_to_char_bin(value: i32, width: usize) -> (r: Vec<char>)
    requires
        0 <= value,
    ensures
        r@ == Seq::new(width as nat, |j: int| spec_digit_of(value as int, width - 1 - j)),
{
    let mut r: Vec<char> = vec!['0'; width];
    let mut v = value;
    let mut k: usize = 0;
    while k < width
        invariant
            k <= width,
            r@.len() == width,
            0 <= v,
            v == spec_halve(value as int, k as int),
            forall|j: int| 0 <= j < width - k ==> #[trigger] r@[j] == '0',
            forall|j: int| width - k <= j < width ==> #[trigger] r@[j] == spec_digit_of(value as int, width - 1 - j),
        decreases width - k,
    {
        if v % 2 == 1 {
            r.set(width - 1 - k, '1');
        }
        v = v / 2;
        k += 1;
    }
    assert(r@ =~= Seq::new(width as nat, |j: int| spec_digit_of(value as int, width - 1 - j)));
    r
}

} // verus!
