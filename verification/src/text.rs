//! Numbers in text, and lists in text.

use vstd::prelude::*;

verus! {

/// The decimal digit that stands for `d`.
pub open spec fn digit(d: int) -> char {
    (d + 0x30) as char
}

/// Whether `c` is a decimal digit.
pub open spec fn is_digit(c: char) -> bool {
    '0' <= c <= '9'
}

/// The number in decimal, without leading zeros.
pub open spec fn decimal(n: nat) -> Seq<char>
    decreases n,
{
    if n < 10 {
        seq![digit(n as int)]
    } else {
        decimal(n / 10).push(digit((n % 10) as int))
    }
}

/// Whether all of `s` is decimal digits.
pub open spec fn all_digits(s: Seq<char>) -> bool {
    forall|i: int| 0 <= i < s.len() ==> is_digit(#[trigger] s[i])
}

/// The number that decimal digits spell.
pub open spec fn digits_value(s: Seq<char>) -> nat
    decreases s.len(),
{
    if s.len() == 0 {
        0
    } else {
        digits_value(s.drop_last()) * 10 + (s.last() as int - 0x30) as nat
    }
}

/// What is left of a number in text without its plus sign.
pub open spec fn unsigned(s: Seq<char>) -> Seq<char> {
    if s.len() > 0 && s[0] == '+' {
        s.drop_first()
    } else {
        s
    }
}

/// The 64 bit number that a text spells, if it spells one: digits, at least one, after at most one
/// plus sign.
pub open spec fn parsed_u64(s: Seq<char>) -> Option<u64> {
    let digits = unsigned(s);
    if digits.len() > 0 && all_digits(digits) && digits_value(digits) <= u64::MAX {
        Some(digits_value(digits) as u64)
    } else {
        None
    }
}

/// The characters of a text.
pub fn chars_of(s: &str) -> (chars: Vec<char>)
    ensures
        chars@ == s@,
{
    let mut chars: Vec<char> = Vec::new();
    for c in it: s.chars()
        invariant
            it.seq() == s@,
            chars@ == s@.take(it.index()),
    {
        chars.push(c);
        assert(s@.take(it.index() + 1) =~= s@.take(it.index()).push(c));
    }
    assert(s@.take(s@.len() as int) =~= s@);
    chars
}

/// Reads the number that a text spells.
pub fn parse_u64(s: &str) -> (n: Option<u64>)
    ensures
        n == parsed_u64(s@),
{
    let chars = chars_of(s);
    let start: usize = if chars.len() > 0 && chars[0] == '+' {
        1
    } else {
        0
    };
    let ghost digits = unsigned(s@);
    assert(digits =~= chars@.skip(start as int));
    if start == chars.len() {
        return None;
    }
    let mut n: u64 = 0;
    let mut i: usize = start;
    while i < chars.len()
        invariant
            start <= i <= chars@.len(),
            digits == chars@.skip(start as int),
            digits == unsigned(s@),
            all_digits(digits.take(i - start)),
            n == digits_value(digits.take(i - start)),
        decreases chars@.len() - i,
    {
        let c = chars[i];
        let ghost k = i - start;
        assert(digits[k] == c);
        if !('0' <= c && c <= '9') {
            assert(!is_digit(digits[k]));
            return None;
        }
        let d: u64 = c as u64 - 0x30;
        proof {
            assert(digits.take(k + 1).drop_last() =~= digits.take(k));
            assert(digits.take(k + 1).last() == c);
            assert(digits_value(digits.take(k + 1)) == n * 10 + d);
        }
        if n > (u64::MAX - d) / 10 {
            proof {
                lemma_digits_value_grows(digits, k + 1);
            }
            return None;
        }
        n = n * 10 + d;
        assert forall|j: int| 0 <= j < k + 1 implies is_digit(#[trigger] digits.take(k + 1)[j]) by {
            if j < k {
                assert(digits.take(k)[j] == digits[j]);
            }
        }
        i += 1;
    }
    assert(digits.take(i - start) =~= digits);
    Some(n)
}

/// More digits spell no smaller number.
proof fn lemma_digits_value_grows(s: Seq<char>, k: int)
    requires
        0 <= k <= s.len(),
    ensures
        digits_value(s.take(k)) <= digits_value(s),
    decreases s.len() - k,
{
    if k < s.len() {
        lemma_digits_value_grows(s, k + 1);
        assert(s.take(k + 1).drop_last() =~= s.take(k));
    } else {
        assert(s.take(k) =~= s);
    }
}

/// The text of one digit.
fn digit_text(d: u64) -> (text: &'static str)
    requires
        d < 10,
    ensures
        text@ == seq![digit(d as int)],
{
    proof {
        reveal_strlit("0");
        reveal_strlit("1");
        reveal_strlit("2");
        reveal_strlit("3");
        reveal_strlit("4");
        reveal_strlit("5");
        reveal_strlit("6");
        reveal_strlit("7");
        reveal_strlit("8");
        reveal_strlit("9");
    }
    let text = match d {
        0 => "0",
        1 => "1",
        2 => "2",
        3 => "3",
        4 => "4",
        5 => "5",
        6 => "6",
        7 => "7",
        8 => "8",
        _ => "9",
    };
    assert(text@ =~= seq![digit(d as int)]);
    text
}

/// Appends a number in decimal.
pub fn push_decimal(text: &mut String, n: u64)
    ensures
        final(text)@ == old(text)@ + decimal(n as nat),
    decreases n,
{
    if n >= 10 {
        push_decimal(text, n / 10);
    }
    text.append(digit_text(n % 10));
    assert(text@ =~= old(text)@ + decimal(n as nat));
}

/// A number that is written in decimal is read back.
pub proof fn lemma_decimal_round_trip(n: u64)
    ensures
        parsed_u64(decimal(n as nat)) == Some(n),
{
    lemma_decimal_digits(n as nat);
    assert(decimal(n as nat)[0] != '+');
}

/// Decimal digits spell the number that they are written for.
proof fn lemma_decimal_digits(n: nat)
    ensures
        decimal(n).len() > 0,
        all_digits(decimal(n)),
        digits_value(decimal(n)) == n,
    decreases n,
{
    reveal_with_fuel(digits_value, 2);
    let s = decimal(n);
    if n >= 10 {
        lemma_decimal_digits(n / 10);
        assert(s.drop_last() =~= decimal(n / 10));
    } else {
        assert(s.drop_last() =~= Seq::<char>::empty());
    }
}

/// Whether `c` has the Unicode property `White_Space`.
pub open spec fn is_white_space(c: char) -> bool {
    let n = c as u32;
    ||| 0x9 <= n <= 0xd
    ||| n == 0x20
    ||| n == 0x85
    ||| n == 0xa0
    ||| n == 0x1680
    ||| 0x2000 <= n <= 0x200a
    ||| n == 0x2028
    ||| n == 0x2029
    ||| n == 0x202f
    ||| n == 0x205f
    ||| n == 0x3000
}

/// `s` without the white space that it begins with.
pub open spec fn trim_start(s: Seq<char>) -> Seq<char>
    decreases s.len(),
{
    if s.len() > 0 && is_white_space(s[0]) {
        trim_start(s.drop_first())
    } else {
        s
    }
}

/// `s` without the white space that it ends in.
pub open spec fn trim_end(s: Seq<char>) -> Seq<char>
    decreases s.len(),
{
    if s.len() > 0 && is_white_space(s.last()) {
        trim_end(s.drop_last())
    } else {
        s
    }
}

/// `s` without the white space at both of its ends.
pub open spec fn trimmed(s: Seq<char>) -> Seq<char> {
    trim_end(trim_start(s))
}

/// The parts of `s` between separators; there is one more of them than there are separators.
pub open spec fn split(s: Seq<char>, separator: char) -> Seq<Seq<char>>
    decreases s.len(),
{
    if s.len() == 0 {
        seq![Seq::empty()]
    } else {
        let parts = split(s.drop_last(), separator);
        if s.last() == separator {
            parts.push(Seq::empty())
        } else {
            parts.drop_last().push(parts.last().push(s.last()))
        }
    }
}

/// The parts with a separator between each two.
pub open spec fn join(parts: Seq<Seq<char>>, separator: char) -> Seq<char>
    decreases parts.len(),
{
    if parts.len() == 0 {
        Seq::empty()
    } else if parts.len() == 1 {
        parts[0]
    } else {
        join(parts.drop_last(), separator).push(separator) + parts.last()
    }
}

/// The items of a list in text: the parts between commas, each without the white space at its ends.
pub open spec fn list_items(s: Seq<char>) -> Seq<Seq<char>> {
    split(s, ',').map_values(|part: Seq<char>| trimmed(part))
}

/// Tells whether `c` is white space.
pub fn white_space(c: char) -> (r: bool)
    ensures
        r == is_white_space(c),
{
    let n = c as u32;
    (0x9 <= n && n <= 0xd) || n == 0x20 || n == 0x85 || n == 0xa0 || n == 0x1680 || (0x2000 <= n
        && n <= 0x200a) || n == 0x2028 || n == 0x2029 || n == 0x202f || n == 0x205f || n == 0x3000
}

/// The part of `s` from character `from` to before character `to`, without the white space at its
/// ends. `chars` are the characters of `s`.
fn trimmed_part(s: &str, chars: &Vec<char>, from: usize, to: usize) -> (part: String)
    requires
        chars@ == s@,
        from <= to <= s@.len(),
    ensures
        part@ == trimmed(s@.subrange(from as int, to as int)),
{
    let ghost whole = s@.subrange(from as int, to as int);
    let mut a: usize = from;
    while a < to && white_space(chars[a])
        invariant
            chars@ == s@,
            from <= a <= to <= s@.len(),
            trim_start(whole) == trim_start(s@.subrange(a as int, to as int)),
        decreases to - a,
    {
        assert(s@.subrange(a as int, to as int).drop_first() =~= s@.subrange(a + 1, to as int));
        a += 1;
    }
    assert(trim_start(whole) == s@.subrange(a as int, to as int));
    let mut b: usize = to;
    while b > a && white_space(chars[b - 1])
        invariant
            chars@ == s@,
            a <= b <= to <= s@.len(),
            trimmed(whole) == trim_end(s@.subrange(a as int, b as int)),
        decreases b - a,
    {
        assert(s@.subrange(a as int, b as int).drop_last() =~= s@.subrange(a as int, b - 1));
        b -= 1;
    }
    assert(trim_end(s@.subrange(a as int, b as int)) == s@.subrange(a as int, b as int));
    s.substring_char(a, b).to_owned()
}

/// The items of a list in text.
pub fn split_list(s: &str) -> (items: Vec<String>)
    ensures
        items@.map_values(|item: String| item@) == list_items(s@),
{
    let chars = chars_of(s);
    let mut items: Vec<String> = Vec::new();
    let mut start: usize = 0;
    let mut i: usize = 0;
    assert(s@.take(0) =~= Seq::<char>::empty());
    assert(s@.subrange(0, 0) =~= Seq::<char>::empty());
    while i < chars.len()
        invariant
            chars@ == s@,
            start <= i <= s@.len(),
            split(s@.take(i as int), ',').len() == items@.len() + 1,
            split(s@.take(i as int), ',').last() == s@.subrange(start as int, i as int),
            forall|k: int|
                0 <= k < items@.len() ==> (#[trigger] items@[k])@ == trimmed(
                    split(s@.take(i as int), ',')[k],
                ),
        decreases s@.len() - i,
    {
        let ghost parts = split(s@.take(i as int), ',');
        let ghost more = split(s@.take(i + 1), ',');
        assert(s@.take(i + 1).drop_last() =~= s@.take(i as int));
        assert(s@.take(i + 1).last() == s@[i as int]);
        if chars[i] == ',' {
            let part = trimmed_part(s, &chars, start, i);
            items.push(part);
            start = i + 1;
            assert(more =~= parts.push(Seq::empty()));
            assert(s@.subrange(start as int, i + 1) =~= Seq::<char>::empty());
        } else {
            assert(s@.subrange(start as int, i + 1) =~= s@.subrange(start as int, i as int).push(
                s@[i as int],
            ));
            assert(more =~= parts.drop_last().push(parts.last().push(s@[i as int])));
        }
        i += 1;
    }
    let part = trimmed_part(s, &chars, start, i);
    items.push(part);
    assert(s@.take(i as int) =~= s@);
    assert(items@.map_values(|item: String| item@) =~= list_items(s@));
    items
}

/// Joining the parts gives the text back; no part holds a separator.
pub proof fn lemma_split_join(s: Seq<char>, separator: char)
    ensures
        split(s, separator).len() > 0,
        join(split(s, separator), separator) == s,
        forall|k: int|
            0 <= k < split(s, separator).len() ==> !(#[trigger] split(s, separator)[k]).contains(
                separator,
            ),
    decreases s.len(),
{
    let parts = split(s, separator);
    if s.len() == 0 {
        assert(join(parts, separator) =~= s);
    } else {
        let c = s.last();
        let fewer = split(s.drop_last(), separator);
        lemma_split_join(s.drop_last(), separator);
        if c == separator {
            assert(parts.drop_last() =~= fewer);
            assert(join(parts, separator) =~= s);
        } else {
            assert(parts.drop_last() =~= fewer.drop_last());
            assert(join(parts, separator) =~= join(fewer, separator).push(c));
            assert(join(parts, separator) =~= s);
            let last = fewer.last().push(c);
            assert(!fewer[fewer.len() - 1].contains(separator));
            assert forall|j: int| 0 <= j < last.len() implies last[j] != separator by {
                if j < fewer.last().len() {
                    assert(fewer.last().contains(fewer.last()[j]));
                }
            }
            assert forall|k: int| 0 <= k < parts.len() implies !(#[trigger] parts[k]).contains(
                separator,
            ) by {
                if k < fewer.len() - 1 {
                    assert(parts[k] == fewer[k]);
                } else {
                    assert(parts[k] == last);
                }
            }
        }
    }
}

/// What is trimmed is a piece of the text that neither begins nor ends in white space, and all
/// that was cut off is white space.
pub proof fn lemma_trimmed(s: Seq<char>)
    ensures
        exists|a: int, b: int|
            0 <= a <= b <= s.len() && trimmed(s) == #[trigger] s.subrange(a, b) && (forall|i: int|
                0 <= i < a || b <= i < s.len() ==> is_white_space(#[trigger] s[i])),
        trimmed(s).len() > 0 ==> !is_white_space(trimmed(s)[0]) && !is_white_space(
            trimmed(s).last(),
        ),
{
    let a = lemma_trim_start(s);
    let t = trim_start(s);
    let b = lemma_trim_end(t);
    assert(trimmed(s) =~= s.subrange(a, a + b));
    assert forall|i: int| 0 <= i < a || a + b <= i < s.len() implies is_white_space(
        #[trigger] s[i],
    ) by {
        if i >= a + b {
            assert(t[i - a] == s[i]);
        }
    }
    if trimmed(s).len() > 0 {
        assert(trimmed(s)[0] == t[0]);
    }
}

/// Where the text begins once the white space before it is cut off.
proof fn lemma_trim_start(s: Seq<char>) -> (a: int)
    ensures
        0 <= a <= s.len(),
        trim_start(s) == s.subrange(a, s.len() as int),
        forall|i: int| 0 <= i < a ==> is_white_space(#[trigger] s[i]),
        a < s.len() ==> !is_white_space(s[a]),
    decreases s.len(),
{
    if s.len() > 0 && is_white_space(s[0]) {
        let t = s.drop_first();
        let a = lemma_trim_start(t);
        assert(t.subrange(a, t.len() as int) =~= s.subrange(a + 1, s.len() as int));
        assert forall|i: int| 0 <= i < a + 1 implies is_white_space(#[trigger] s[i]) by {
            if i > 0 {
                assert(t[i - 1] == s[i]);
            }
        }
        a + 1
    } else {
        assert(s.subrange(0, s.len() as int) =~= s);
        0
    }
}

/// Where the text ends once the white space after it is cut off.
proof fn lemma_trim_end(s: Seq<char>) -> (b: int)
    ensures
        0 <= b <= s.len(),
        trim_end(s) == s.subrange(0, b),
        forall|i: int| b <= i < s.len() ==> is_white_space(#[trigger] s[i]),
        b > 0 ==> !is_white_space(s[b - 1]),
    decreases s.len(),
{
    if s.len() > 0 && is_white_space(s.last()) {
        let t = s.drop_last();
        let b = lemma_trim_end(t);
        assert(t.subrange(0, b) =~= s.subrange(0, b));
        assert forall|i: int| b <= i < s.len() implies is_white_space(#[trigger] s[i]) by {
            if i < t.len() {
                assert(t[i] == s[i]);
            }
        }
        b
    } else {
        assert(s.subrange(0, s.len() as int) =~= s);
        s.len() as int
    }
}

/// How a number in text is read on: each further digit makes it ten times as great and adds its own
/// value, until it does not fit in 64 bits; nothing else may follow. One plus sign may come first.
pub proof fn lemma_number_is_read_on(s: Seq<char>, c: char)
    ensures
        parsed_u64(Seq::empty()) is None,
        !('0' <= c <= '9') ==> parsed_u64(s.push(c)) is None,
        '0' <= c <= '9' ==> {
            let d = c as int - '0' as int;
            &&& parsed_u64(seq![c]) == Some(d as u64)
            &&& parsed_u64(seq!['+', c]) == Some(d as u64)
            &&& s.len() > 0 && s != seq!['+'] ==> parsed_u64(s.push(c)) == match parsed_u64(s) {
                Some(n) => if n * 10 + d <= u64::MAX {
                    Some((n * 10 + d) as u64)
                } else {
                    None
                },
                None => None,
            }
        },
{
    let t = s.push(c);
    let (digits, more) = (unsigned(s), unsigned(t));
    assert(unsigned(Seq::<char>::empty()) =~= Seq::<char>::empty());
    reveal_with_fuel(digits_value, 2);
    if '0' <= c <= '9' {
        let (one, plus) = (seq![c], seq!['+', c]);
        assert(one.drop_last() =~= Seq::<char>::empty());
        assert(unsigned(one) =~= one);
        assert(unsigned(plus) =~= one);
        assert(all_digits(one));
        if s.len() > 0 && s != seq!['+'] {
            assert(more =~= digits.push(c));
            assert(more.drop_last() =~= digits);
            if s.len() == 1 && s[0] == '+' {
                assert(s =~= seq!['+']);
            }
            assert(digits.len() > 0);
            if all_digits(digits) {
                assert forall|i: int| 0 <= i < more.len() implies is_digit(#[trigger] more[i]) by {
                    if i < digits.len() {
                        assert(more[i] == digits[i]);
                    }
                }
            } else {
                let i = choose|i: int|
                    0 <= i < digits.len() && !is_digit(#[trigger] digits[i]);
                assert(!is_digit(more[i]));
            }
        }
    } else if more.len() > 0 {
        assert(more.last() == c);
        assert(!is_digit(more[more.len() - 1]));
    }
}

/// How a number is written: in digits from `0` to `9`, the digit for the rest of the division by ten
/// behind those for the quotient; without a sign, and without a zero before another digit.
pub proof fn lemma_number_is_written(n: nat, d: int)
    requires
        0 <= d < 10,
    ensures
        decimal(d as nat) == seq![('0' as int + d) as char],
        n > 0 ==> decimal((n * 10 + d) as nat) == decimal(n).push(('0' as int + d) as char),
        decimal(n).len() > 0,
        n > 0 ==> decimal(n)[0] != '0',
        forall|i: int| 0 <= i < decimal(n).len() ==> '0' <= #[trigger] decimal(n)[i] <= '9',
{
    lemma_decimal_digits(n);
    lemma_decimal_begins(n);
    let m = (n * 10 + d) as nat;
    assert(m / 10 == n && m % 10 == d);
    assert forall|i: int| 0 <= i < decimal(n).len() implies '0' <= #[trigger] decimal(n)[i]
        <= '9' by {
        assert(is_digit(decimal(n)[i]));
    }
}

/// A number other than zero does not begin with a zero.
proof fn lemma_decimal_begins(n: nat)
    ensures
        decimal(n).len() > 0,
        n > 0 ==> decimal(n)[0] != '0',
    decreases n,
{
    if n >= 10 {
        lemma_decimal_begins(n / 10);
    }
}

/// A text that two texts and a separator make up has the parts of the one and then those of the
/// other; a text without a separator is its only part.
pub proof fn lemma_split_of_two(a: Seq<char>, b: Seq<char>, separator: char)
    ensures
        split(a.push(separator) + b, separator) == split(a, separator) + split(b, separator),
        !a.contains(separator) ==> split(a, separator) == seq![a],
    decreases b.len(),
{
    let all = a.push(separator) + b;
    lemma_split_join(a, separator);
    lemma_split_join(b, separator);
    if b.len() == 0 {
        assert(all =~= a.push(separator));
        assert(all.drop_last() =~= a);
        assert(split(all, separator) =~= split(a, separator) + split(b, separator));
    } else {
        lemma_split_of_two(a, b.drop_last(), separator);
        lemma_split_join(b.drop_last(), separator);
        assert(all.drop_last() =~= a.push(separator) + b.drop_last());
        assert(all.last() == b.last());
        let (x, y) = (split(a, separator), split(b.drop_last(), separator));
        assert((x + y).drop_last() =~= x + y.drop_last());
        assert(split(all, separator) =~= x + split(b, separator));
    }
    if !a.contains(separator) {
        lemma_split_of_one(a, separator);
    }
}

/// A text without a separator is its only part.
proof fn lemma_split_of_one(s: Seq<char>, separator: char)
    requires
        !s.contains(separator),
    ensures
        split(s, separator) == seq![s],
    decreases s.len(),
{
    if s.len() > 0 {
        let t = s.drop_last();
        assert forall|i: int| 0 <= i < t.len() implies t[i] != separator by {
            assert(s.contains(s[i]));
        }
        assert(s.contains(s[s.len() - 1]));
        lemma_split_of_one(t, separator);
        assert(t.push(s.last()) =~= s);
        assert(split(s, separator) =~= seq![s]);
    } else {
        assert(s =~= Seq::<char>::empty());
    }
}

/// White space at the ends of a text makes no difference once it is trimmed; a text without any
/// there is what it is trimmed to.
pub proof fn lemma_trimming(s: Seq<char>, c: char)
    ensures
        is_white_space(c) ==> trimmed(seq![c] + s) == trimmed(s),
        is_white_space(c) ==> trimmed(s.push(c)) == trimmed(s),
        s.len() > 0 && !is_white_space(s[0]) && !is_white_space(s.last()) ==> trimmed(s) == s,
        s.len() == 0 ==> trimmed(s) == s,
{
    if is_white_space(c) {
        assert((seq![c] + s).drop_first() =~= s);
        lemma_trim_start_of_push(s, c);
        let t = trim_start(s);
        if t.len() > 0 {
            assert(t.push(c).drop_last() =~= t);
        }
    }
}

/// White space behind a text is cut off at its beginning only where there is nothing else.
proof fn lemma_trim_start_of_push(s: Seq<char>, c: char)
    requires
        is_white_space(c),
    ensures
        trim_start(s).len() > 0 ==> trim_start(s.push(c)) == trim_start(s).push(c),
        trim_start(s).len() == 0 ==> trim_start(s.push(c)) == trim_start(s),
    decreases s.len(),
{
    if s.len() > 0 && is_white_space(s[0]) {
        lemma_trim_start_of_push(s.drop_first(), c);
        assert(s.push(c).drop_first() =~= s.drop_first().push(c));
    } else if s.len() == 0 {
        assert(s.push(c).drop_first() =~= s);
        assert(trim_start(s.push(c)) == trim_start(s));
    }
}

/// The characters of white space, by their numbers.
pub proof fn lemma_white_space(c: char, r: bool)
    requires
        call_ensures(white_space, (c,), r),
    ensures
        r == is_white_space(c),
        r <==> seq![
            0x9u32,
            0xa,
            0xb,
            0xc,
            0xd,
            0x20,
            0x85,
            0xa0,
            0x1680,
            0x2000,
            0x2001,
            0x2002,
            0x2003,
            0x2004,
            0x2005,
            0x2006,
            0x2007,
            0x2008,
            0x2009,
            0x200a,
            0x2028,
            0x2029,
            0x202f,
            0x205f,
            0x3000,
        ].contains(c as u32),
{
    let all = seq![
        0x9u32,
        0xa,
        0xb,
        0xc,
        0xd,
        0x20,
        0x85,
        0xa0,
        0x1680,
        0x2000,
        0x2001,
        0x2002,
        0x2003,
        0x2004,
        0x2005,
        0x2006,
        0x2007,
        0x2008,
        0x2009,
        0x200a,
        0x2028,
        0x2029,
        0x202f,
        0x205f,
        0x3000,
    ];
    let n = c as u32;
    if is_white_space(c) {
        let i: int = if n <= 0xd {
            n - 0x9
        } else if n == 0x20 {
            5
        } else if n == 0x85 {
            6
        } else if n == 0xa0 {
            7
        } else if n == 0x1680 {
            8
        } else if n <= 0x200a {
            n - 0x2000 + 9
        } else if n == 0x2028 {
            20
        } else if n == 0x2029 {
            21
        } else if n == 0x202f {
            22
        } else if n == 0x205f {
            23
        } else {
            24
        };
        assert(all[i] == n);
    }
}

/// A list that two lists and a comma make up has the items of the one and then those of the other; a
/// list without a comma has one item, the text without the white space at its ends.
pub proof fn lemma_list_of_two(a: Seq<char>, b: Seq<char>)
    ensures
        list_items(a.push(',') + b) == list_items(a) + list_items(b),
        !a.contains(',') ==> list_items(a) == seq![trimmed(a)],
{
    lemma_split_of_two(a, b, ',');
    assert(list_items(a.push(',') + b) =~= list_items(a) + list_items(b));
    if !a.contains(',') {
        assert(list_items(a) =~= seq![trimmed(a)]);
    }
}

} // verus!
