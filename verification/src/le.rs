//! Sixty-four bit numbers as eight bytes, least significant byte first.

use vstd::arithmetic::power::pow;
use vstd::prelude::*;

verus! {

/// The eight bytes of `x`, least significant first.
pub open spec fn le_bytes(x: u64) -> Seq<u8> {
    Seq::new(8, |i: int| le_byte(x, i))
}

/// Byte `i` of `x`, counted from the least significant one.
pub open spec fn le_byte(x: u64, i: int) -> u8 {
    if i == 0 {
        (x % 0x100) as u8
    } else if i == 1 {
        (x / 0x100 % 0x100) as u8
    } else if i == 2 {
        (x / 0x1_0000 % 0x100) as u8
    } else if i == 3 {
        (x / 0x100_0000 % 0x100) as u8
    } else if i == 4 {
        (x / 0x1_0000_0000 % 0x100) as u8
    } else if i == 5 {
        (x / 0x100_0000_0000 % 0x100) as u8
    } else if i == 6 {
        (x / 0x1_0000_0000_0000 % 0x100) as u8
    } else {
        (x / 0x100_0000_0000_0000) as u8
    }
}

/// The number that the first eight bytes of `s` spell, least significant first.
pub open spec fn le_value(s: Seq<u8>) -> int {
    s[0] + s[1] * 0x100 + s[2] * 0x1_0000 + s[3] * 0x100_0000 + s[4] * 0x1_0000_0000 + s[5]
        * 0x100_0000_0000 + s[6] * 0x1_0000_0000_0000 + s[7] * 0x100_0000_0000_0000
}

/// Encodes `x` with the least significant byte first.
pub fn to_le_bytes(x: u64) -> (bytes: [u8; 8])
    ensures
        bytes@ == le_bytes(x),
        forall|i: int| 0 <= i < 8 ==> #[trigger] bytes@[i] == (x >> (8 * i) as u64) & 0xff,
{
    let bytes = [
        (x % 0x100) as u8,
        (x / 0x100 % 0x100) as u8,
        (x / 0x1_0000 % 0x100) as u8,
        (x / 0x100_0000 % 0x100) as u8,
        (x / 0x1_0000_0000 % 0x100) as u8,
        (x / 0x100_0000_0000 % 0x100) as u8,
        (x / 0x1_0000_0000_0000 % 0x100) as u8,
        (x / 0x100_0000_0000_0000) as u8,
    ];
    assert(bytes@ =~= le_bytes(x));
    proof {
        lemma_le_bytes_are_shifts(x);
    }
    bytes
}

/// Decodes the eight bytes of `b` that begin at `at`.
pub fn read_le(b: &[u8], at: usize) -> (x: u64)
    requires
        at + 8 <= b@.len(),
    ensures
        x == le_value(b@.subrange(at as int, at + 8)),
        forall|i: int|
            at <= i < at + 8 ==> #[trigger] b@[i] == (x >> (8 * (i - at)) as u64) & 0xff,
{
    let ghost s = b@.subrange(at as int, at + 8);
    assert(forall|i: int| 0 <= i < 8 ==> #[trigger] s[i] == b@[at + i]);
    proof {
        lemma_le_injective(s);
        lemma_le_bytes_are_shifts(le_value(s) as u64);
        assert forall|i: int| at <= i < at + 8 implies #[trigger] b@[i] == (le_value(s) as u64 >> (
        8 * (i - at)) as u64) & 0xff by {
            assert(s[i - at] == b@[i]);
        }
    }
    b[at] as u64 + b[at + 1] as u64 * 0x100 + b[at + 2] as u64 * 0x1_0000 + b[at + 3] as u64
        * 0x100_0000 + b[at + 4] as u64 * 0x1_0000_0000 + b[at + 5] as u64 * 0x100_0000_0000
        + b[at + 6] as u64 * 0x1_0000_0000_0000 + b[at + 7] as u64 * 0x100_0000_0000_0000
}

/// Dividing by 256 step by step is dividing by the power of 256 at once.
proof fn lemma_le_quotients(x: u64)
    ensures
        x / 0x1_0000 == x / 0x100 / 0x100,
        x / 0x100_0000 == x / 0x1_0000 / 0x100,
        x / 0x1_0000_0000 == x / 0x100_0000 / 0x100,
        x / 0x100_0000_0000 == x / 0x1_0000_0000 / 0x100,
        x / 0x1_0000_0000_0000 == x / 0x100_0000_0000 / 0x100,
        x / 0x100_0000_0000_0000 == x / 0x1_0000_0000_0000 / 0x100,
        x / 0x100_0000_0000_0000 < 0x100,
{
    assert(x / 0x1_0000 == x / 0x100 / 0x100) by (bit_vector);
    assert(x / 0x100_0000 == x / 0x1_0000 / 0x100) by (bit_vector);
    assert(x / 0x1_0000_0000 == x / 0x100_0000 / 0x100) by (bit_vector);
    assert(x / 0x100_0000_0000 == x / 0x1_0000_0000 / 0x100) by (bit_vector);
    assert(x / 0x1_0000_0000_0000 == x / 0x100_0000_0000 / 0x100) by (bit_vector);
    assert(x / 0x100_0000_0000_0000 == x / 0x1_0000_0000_0000 / 0x100) by (bit_vector);
    assert(x / 0x100_0000_0000_0000 < 0x100) by (bit_vector);
}

/// Byte `i` of a number is what is left of it once the `8 * i` bits below are shifted out and the
/// bits above are masked.
pub proof fn lemma_le_bytes_are_shifts(x: u64)
    ensures
        le_bytes(x).len() == 8,
        forall|i: int| 0 <= i < 8 ==> #[trigger] le_bytes(x)[i] == (x >> (8 * i) as u64) & 0xff,
{
    assert((x >> 0) & 0xff == x % 0x100) by (bit_vector);
    assert((x >> 8) & 0xff == x / 0x100 % 0x100) by (bit_vector);
    assert((x >> 16) & 0xff == x / 0x1_0000 % 0x100) by (bit_vector);
    assert((x >> 24) & 0xff == x / 0x100_0000 % 0x100) by (bit_vector);
    assert((x >> 32) & 0xff == x / 0x1_0000_0000 % 0x100) by (bit_vector);
    assert((x >> 40) & 0xff == x / 0x100_0000_0000 % 0x100) by (bit_vector);
    assert((x >> 48) & 0xff == x / 0x1_0000_0000_0000 % 0x100) by (bit_vector);
    assert((x >> 56) & 0xff == x / 0x100_0000_0000_0000) by (bit_vector);
    assert((x >> 56) & 0xff < 0x100) by (bit_vector);
    assert forall|i: int| 0 <= i < 8 implies #[trigger] le_bytes(x)[i] == (x >> (8 * i) as u64)
        & 0xff by {
        assert(i == 0 || i == 1 || i == 2 || i == 3 || i == 4 || i == 5 || i == 6 || i == 7);
    }
}

/// To replace byte `i` by `b` changes the number by the difference of the two bytes, times 256 to
/// the power of `i`; zeros spell zero.
pub proof fn lemma_le_value_is_positional(s: Seq<u8>, i: int, b: u8)
    requires
        s.len() == 8,
        0 <= i < 8,
    ensures
        le_value(s.update(i, b)) - le_value(s) == (b - s[i]) * pow(256, i as nat),
        le_value(Seq::new(8, |j: int| 0u8)) == 0,
{
    let t = s.update(i, b);
    assert(pow(256, 0) == 1 && pow(256, 1) == 0x100 && pow(256, 2) == 0x1_0000 && pow(256, 3)
        == 0x100_0000 && pow(256, 4) == 0x1_0000_0000 && pow(256, 5) == 0x100_0000_0000 && pow(
        256,
        6,
    ) == 0x1_0000_0000_0000 && pow(256, 7) == 0x100_0000_0000_0000) by {
        reveal(pow);
        reveal_with_fuel(pow, 9);
    }
    assert(i == 0 || i == 1 || i == 2 || i == 3 || i == 4 || i == 5 || i == 6 || i == 7);
}

/// What is written is read: the bytes that a number is encoded as, least significant first, are
/// decoded to that number, wherever they stand.
pub proof fn lemma_written_is_read(x: u64, bytes: [u8; 8], b: &[u8], at: usize, y: u64)
    requires
        call_ensures(to_le_bytes, (x,), bytes),
        at + 8 <= b@.len(),
        b@.subrange(at as int, at + 8) == bytes@,
        call_ensures(read_le, (b, at), y),
    ensures
        y == x,
        forall|i: int| 0 <= i < 8 ==> #[trigger] bytes@[i] == (x >> (8 * i) as u64) & 0xff,
{
    lemma_le_round_trip(x);
    lemma_le_bytes_are_shifts(x);
}

/// Every number is read back from its own encoding.
pub proof fn lemma_le_round_trip(x: u64)
    ensures
        le_bytes(x).len() == 8,
        le_value(le_bytes(x)) == x,
{
    lemma_le_quotients(x);
    let q1 = x / 0x100;
    let q2 = x / 0x1_0000;
    let q3 = x / 0x100_0000;
    let q4 = x / 0x1_0000_0000;
    let q5 = x / 0x100_0000_0000;
    let q6 = x / 0x1_0000_0000_0000;
    let q7 = x / 0x100_0000_0000_0000;
    assert(x == q1 * 0x100 + x % 0x100);
    assert(q1 == q2 * 0x100 + q1 % 0x100);
    assert(q2 == q3 * 0x100 + q2 % 0x100);
    assert(q3 == q4 * 0x100 + q3 % 0x100);
    assert(q4 == q5 * 0x100 + q4 % 0x100);
    assert(q5 == q6 * 0x100 + q5 % 0x100);
    assert(q6 == q7 * 0x100 + q6 % 0x100);
    let s = le_bytes(x);
    assert(s[0] == x % 0x100 && s[1] == q1 % 0x100 && s[2] == q2 % 0x100 && s[3] == q3 % 0x100);
    assert(s[4] == q4 % 0x100 && s[5] == q5 % 0x100 && s[6] == q6 % 0x100 && s[7] == q7);
}

/// Eight bytes are the encoding of the number that they spell.
pub proof fn lemma_le_injective(s: Seq<u8>)
    requires
        s.len() == 8,
    ensures
        0 <= le_value(s) <= u64::MAX,
        le_bytes(le_value(s) as u64) == s,
{
    let x = le_value(s) as u64;
    lemma_le_quotients(x);
    let r7: int = s[7] as int;
    let r6: int = s[6] + r7 * 0x100;
    let r5: int = s[5] + r6 * 0x100;
    let r4: int = s[4] + r5 * 0x100;
    let r3: int = s[3] + r4 * 0x100;
    let r2: int = s[2] + r3 * 0x100;
    let r1: int = s[1] + r2 * 0x100;
    assert(x == s[0] + r1 * 0x100);
    assert(x / 0x100 == r1 && x % 0x100 == s[0]);
    assert(x / 0x1_0000 == r2 && r1 % 0x100 == s[1]);
    assert(x / 0x100_0000 == r3 && r2 % 0x100 == s[2]);
    assert(x / 0x1_0000_0000 == r4 && r3 % 0x100 == s[3]);
    assert(x / 0x100_0000_0000 == r5 && r4 % 0x100 == s[4]);
    assert(x / 0x1_0000_0000_0000 == r6 && r5 % 0x100 == s[5]);
    assert(x / 0x100_0000_0000_0000 == r7 && r6 % 0x100 == s[6]);
    assert(le_bytes(x) =~= s);
}

} // verus!
