//! Wallet addresses: public keys of 32 bytes in base 58.

use vstd::prelude::*;
use vstd::utf8::encode_utf8;

verus! {

/// The number that a character of the base 58 alphabet stands for. The alphabet is the digits and
/// the letters without `0`, `I`, `O` and `l`; every other character is given a negative number.
pub open spec fn base58_digit(c: char) -> int {
    if '1' <= c <= '9' {
        c as int - '1' as int
    } else if 'A' <= c <= 'H' {
        c as int - 'A' as int + 9
    } else if 'J' <= c <= 'N' {
        c as int - 'J' as int + 17
    } else if 'P' <= c <= 'Z' {
        c as int - 'P' as int + 22
    } else if 'a' <= c <= 'k' {
        c as int - 'a' as int + 33
    } else if 'm' <= c <= 'z' {
        c as int - 'm' as int + 44
    } else {
        -1
    }
}

/// The number that `s` spells in base 58, most significant character first.
pub open spec fn base58_value(s: Seq<char>) -> int
    decreases s.len(),
{
    if s.len() == 0 {
        0
    } else {
        base58_value(s.drop_last()) * 58 + base58_digit(s.last())
    }
}

/// The number that `s` spells, most significant byte first.
pub open spec fn be_value(s: Seq<u8>) -> int
    decreases s.len(),
{
    if s.len() == 0 {
        0
    } else {
        be_value(s.drop_last()) * 256 + s.last()
    }
}

/// How many times `x` stands at the beginning of `s`.
pub open spec fn leading<T>(s: Seq<T>, x: T) -> nat
    decreases s.len(),
{
    if s.len() > 0 && s[0] == x {
        1 + leading(s.drop_first(), x)
    } else {
        0
    }
}

/// `address` is the base 58 text of the 32 bytes `key`: both spell the same number, and each zero
/// byte that the key begins with is a `1` that the address begins with.
pub open spec fn is_address_of(address: Seq<char>, key: Seq<u8>) -> bool {
    &&& key.len() == 32
    &&& forall|i: int| 0 <= i < address.len() ==> base58_digit(#[trigger] address[i]) >= 0
    &&& base58_value(address) == be_value(key)
    &&& leading(address, '1') == leading(key, 0u8)
}

/// `address` is the address of some public key.
pub open spec fn is_address(address: Seq<char>) -> bool {
    exists|key: Seq<u8>| is_address_of(address, key)
}

/// Calls `solana_sdk::pubkey::Pubkey::from_str` and hands the bytes of the key on. It accepts the
/// base 58 text of 32 bytes and nothing else; such a text is no longer than 44 bytes.
#[verifier::external_body]
pub(crate) fn parse_pubkey(address: &str) -> (key: Option<[u8; 32]>)
    ensures
        match key {
            Some(key) => is_address_of(address@, key@) && encode_utf8(address@).len() <= 44,
            None => !is_address(address@),
        },
{
    address.parse::<solana_sdk::pubkey::Pubkey>().ok().map(|key| key.to_bytes())
}

/// An address is the address of one public key only.
pub proof fn lemma_key_is_unique(address: Seq<char>, a: Seq<u8>, b: Seq<u8>)
    requires
        is_address_of(address, a),
        is_address_of(address, b),
    ensures
        a == b,
{
    lemma_be_value_injective(a, b);
}

/// Bytes of the same number, and as many, are the same.
proof fn lemma_be_value_injective(a: Seq<u8>, b: Seq<u8>)
    requires
        a.len() == b.len(),
        be_value(a) == be_value(b),
    ensures
        a == b,
    decreases a.len(),
{
    if a.len() > 0 {
        let (x, y) = (be_value(a.drop_last()), be_value(b.drop_last()));
        assert(x * 256 + a.last() == y * 256 + b.last());
        assert(x == y && a.last() == b.last());
        lemma_be_value_injective(a.drop_last(), b.drop_last());
        assert(a =~= a.drop_last().push(a.last()));
        assert(b =~= b.drop_last().push(b.last()));
    } else {
        assert(a =~= b);
    }
}

/// A public key has one address only.
pub proof fn lemma_address_is_unique(a: Seq<char>, b: Seq<char>, key: Seq<u8>)
    requires
        is_address_of(a, key),
        is_address_of(b, key),
    ensures
        a == b,
{
    lemma_base58_injective(a, b);
}

/// Texts of the same number with as many `1` at the beginning are the same.
proof fn lemma_base58_injective(a: Seq<char>, b: Seq<char>)
    requires
        forall|i: int| 0 <= i < a.len() ==> base58_digit(#[trigger] a[i]) >= 0,
        forall|i: int| 0 <= i < b.len() ==> base58_digit(#[trigger] b[i]) >= 0,
        base58_value(a) == base58_value(b),
        leading(a, '1') == leading(b, '1'),
    ensures
        a == b,
    decreases a.len() + b.len(),
{
    lemma_leading_bound(a);
    lemma_leading_bound(b);
    if a.len() == 0 && b.len() == 0 {
        assert(a =~= b);
    } else if leading(a, '1') == a.len() || leading(b, '1') == b.len() {
        lemma_ones_are_zero(a);
        lemma_ones_are_zero(b);
        assert(a =~= b);
    } else {
        let (x, y) = (a.drop_last(), b.drop_last());
        let (v, w) = (base58_value(x), base58_value(y));
        lemma_digit_range(a.last());
        lemma_digit_range(b.last());
        assert(a[a.len() - 1] == a.last() && b[b.len() - 1] == b.last());
        assert(v * 58 + base58_digit(a.last()) == w * 58 + base58_digit(b.last()));
        assert(v == w && base58_digit(a.last()) == base58_digit(b.last()));
        assert(a.last() == b.last());
        assert forall|i: int| 0 <= i < x.len() implies base58_digit(#[trigger] x[i]) >= 0 by {
            assert(x[i] == a[i]);
        }
        assert forall|i: int| 0 <= i < y.len() implies base58_digit(#[trigger] y[i]) >= 0 by {
            assert(y[i] == b[i]);
        }
        lemma_leading_of_prefix(a);
        lemma_leading_of_prefix(b);
        lemma_base58_injective(x, y);
        assert(a =~= x.push(a.last()));
        assert(b =~= y.push(b.last()));
    }
}

/// A digit of base 58 is less than 58.
proof fn lemma_digit_range(c: char)
    ensures
        base58_digit(c) < 58,
{
}

/// There are no more leading characters than characters.
proof fn lemma_leading_bound(s: Seq<char>)
    ensures
        leading(s, '1') <= s.len(),
    decreases s.len(),
{
    if s.len() > 0 && s[0] == '1' {
        lemma_leading_bound(s.drop_first());
    }
}

/// A text that goes on after its leading characters has as many of them without its last character.
proof fn lemma_leading_of_prefix(s: Seq<char>)
    requires
        leading(s, '1') < s.len(),
    ensures
        leading(s.drop_last(), '1') == leading(s, '1'),
    decreases s.len(),
{
    if s[0] == '1' {
        let t = s.drop_first();
        assert(t.len() > 0);
        lemma_leading_of_prefix(t);
        assert(t.drop_last() =~= s.drop_last().drop_first());
    }
}

/// A text spells zero just if it is made of nothing but `1`.
proof fn lemma_ones_are_zero(s: Seq<char>)
    requires
        forall|i: int| 0 <= i < s.len() ==> base58_digit(#[trigger] s[i]) >= 0,
    ensures
        base58_value(s) >= 0,
        base58_value(s) == 0 <==> leading(s, '1') == s.len(),
        leading(s, '1') == s.len() ==> forall|i: int| 0 <= i < s.len() ==> #[trigger] s[i] == '1',
    decreases s.len(),
{
    if s.len() > 0 {
        let t = s.drop_last();
        assert forall|i: int| 0 <= i < t.len() implies base58_digit(#[trigger] t[i]) >= 0 by {
            assert(t[i] == s[i]);
        }
        lemma_ones_are_zero(t);
        assert(s[s.len() - 1] == s.last());
        lemma_leading_bound(s);
        if leading(s, '1') < s.len() {
            lemma_leading_of_prefix(s);
            if leading(t, '1') == t.len() {
                lemma_leading_push(t, s.last());
                assert(s =~= t.push(s.last()));
            }
        } else {
            lemma_all_leading(s);
            assert(t.len() == s.len() - 1);
            lemma_leading_all(t);
        }
    }
}

/// Where all characters are leading ones, each is a `1`.
proof fn lemma_all_leading(s: Seq<char>)
    requires
        leading(s, '1') == s.len(),
    ensures
        forall|i: int| 0 <= i < s.len() ==> #[trigger] s[i] == '1',
    decreases s.len(),
{
    if s.len() > 0 {
        let t = s.drop_first();
        lemma_all_leading(t);
        assert forall|i: int| 0 <= i < s.len() implies #[trigger] s[i] == '1' by {
            if i > 0 {
                assert(t[i - 1] == s[i]);
            }
        }
    }
}

/// Where each character is a `1`, all are leading ones.
proof fn lemma_leading_all(s: Seq<char>)
    requires
        forall|i: int| 0 <= i < s.len() ==> #[trigger] s[i] == '1',
    ensures
        leading(s, '1') == s.len(),
    decreases s.len(),
{
    if s.len() > 0 {
        lemma_leading_all(s.drop_first());
    }
}

/// What comes after nothing but `1` is a leading character just if it is a `1`.
proof fn lemma_leading_push(s: Seq<char>, c: char)
    requires
        leading(s, '1') == s.len(),
    ensures
        leading(s.push(c), '1') == s.len() + (if c == '1' {
            1int
        } else {
            0
        }),
    decreases s.len(),
{
    if s.len() > 0 {
        lemma_leading_push(s.drop_first(), c);
        assert(s.push(c).drop_first() =~= s.drop_first().push(c));
    } else {
        reveal_with_fuel(leading, 2);
        assert(s.push(c).drop_first() =~= s);
    }
}

/// The character that stands for a digit of base 58.
pub open spec fn base58_char(d: int) -> char {
    if d < 9 {
        (d + '1' as int) as char
    } else if d < 17 {
        (d - 9 + 'A' as int) as char
    } else if d < 22 {
        (d - 17 + 'J' as int) as char
    } else if d < 33 {
        (d - 22 + 'P' as int) as char
    } else if d < 44 {
        (d - 33 + 'a' as int) as char
    } else {
        (d - 44 + 'm' as int) as char
    }
}

/// A number in base 58, without leading zeros.
pub open spec fn base58_text(n: nat) -> Seq<char>
    decreases n,
{
    if n == 0 {
        Seq::empty()
    } else {
        base58_text(n / 58).push(base58_char((n % 58) as int))
    }
}

/// Every public key has an address: as many `1` as it begins with zeros, and then its number in base
/// 58.
pub proof fn lemma_every_key_has_an_address(key: Seq<u8>)
    requires
        key.len() == 32,
    ensures
        is_address_of(
            Seq::new(leading(key, 0u8), |i: int| '1') + base58_text(be_value(key) as nat),
            key,
        ),
        is_address(Seq::new(leading(key, 0u8), |i: int| '1') + base58_text(be_value(key) as nat)),
{
    lemma_be_value_nonnegative(key);
    let n = be_value(key) as nat;
    let zeros = leading(key, 0u8);
    let text = base58_text(n);
    lemma_base58_text(n);
    lemma_leading_ones(zeros, text);
    let address = Seq::new(zeros, |i: int| '1') + text;
    assert forall|i: int| 0 <= i < address.len() implies base58_digit(#[trigger] address[i])
        >= 0 by {
        if i >= zeros {
            assert(address[i] == text[i - zeros]);
        }
    }
    assert(is_address_of(address, key));
}

/// No other text is the address of a key than as many `1` as the key begins with zeros, and then its
/// number in base 58.
pub proof fn lemma_addresses_are_those_of_keys(address: Seq<char>, key: Seq<u8>)
    requires
        is_address_of(address, key),
    ensures
        is_address(address),
        address == Seq::new(leading(key, 0u8), |i: int| '1') + base58_text(be_value(key) as nat),
{
    lemma_every_key_has_an_address(key);
    lemma_address_is_unique(
        address,
        Seq::new(leading(key, 0u8), |i: int| '1') + base58_text(be_value(key) as nat),
        key,
    );
}

/// Bytes spell no negative number.
proof fn lemma_be_value_nonnegative(s: Seq<u8>)
    ensures
        be_value(s) >= 0,
    decreases s.len(),
{
    if s.len() > 0 {
        lemma_be_value_nonnegative(s.drop_last());
    }
}

/// A number in base 58 spells that number, in digits of base 58, the first of which is not zero.
proof fn lemma_base58_text(n: nat)
    ensures
        base58_value(base58_text(n)) == n,
        forall|i: int|
            0 <= i < base58_text(n).len() ==> base58_digit(#[trigger] base58_text(n)[i]) >= 0,
        n > 0 <==> base58_text(n).len() > 0,
        n > 0 ==> base58_text(n)[0] != '1',
    decreases n,
{
    if n > 0 {
        let (rest, c) = (base58_text(n / 58), base58_char((n % 58) as int));
        lemma_base58_text(n / 58);
        assert(base58_digit(c) == n % 58);
        assert(base58_text(n).drop_last() =~= rest);
        assert forall|i: int| 0 <= i < base58_text(n).len() implies base58_digit(
            #[trigger] base58_text(n)[i],
        ) >= 0 by {
            if i < rest.len() {
                assert(base58_text(n)[i] == rest[i]);
            }
        }
        if rest.len() > 0 {
            assert(base58_text(n)[0] == rest[0]);
        }
    }
}

/// Each `1` before a text is a leading one and adds nothing to the number.
proof fn lemma_leading_ones(zeros: nat, text: Seq<char>)
    requires
        text.len() > 0 ==> text[0] != '1',
    ensures
        leading(Seq::new(zeros, |i: int| '1') + text, '1') == zeros,
        base58_value(Seq::new(zeros, |i: int| '1') + text) == base58_value(text),
    decreases zeros, text.len(),
{
    let ones = Seq::new(zeros, |i: int| '1');
    let all = ones + text;
    if zeros > 0 {
        let fewer = Seq::new((zeros - 1) as nat, |i: int| '1');
        lemma_leading_ones((zeros - 1) as nat, text);
        assert(all.drop_first() =~= fewer + text);
    } else {
        assert(all =~= text);
    }
    lemma_value_behind_ones(zeros, text);
}

/// Ones before a text add nothing to the number.
proof fn lemma_value_behind_ones(zeros: nat, text: Seq<char>)
    ensures
        base58_value(Seq::new(zeros, |i: int| '1') + text) == base58_value(text),
    decreases zeros + text.len(),
{
    let all = Seq::new(zeros, |i: int| '1') + text;
    if text.len() > 0 {
        lemma_value_behind_ones(zeros, text.drop_last());
        assert(all.drop_last() =~= Seq::new(zeros, |i: int| '1') + text.drop_last());
    } else if zeros > 0 {
        let fewer = Seq::new((zeros - 1) as nat, |i: int| '1');
        lemma_value_behind_ones((zeros - 1) as nat, text);
        assert(all.drop_last() =~= fewer + text);
        assert(all.last() == '1');
    } else {
        assert(all =~= text);
    }
}

} // verus!
