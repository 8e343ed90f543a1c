//! Byte counts as short texts: `100b`, `1.9kb`, `3mb`, `12.5gb`.
//!
//! A count is scaled to the largest unit that it reaches, units being powers
//! of one thousand. Of the decimal places only the first is shown, and only
//! where the count is no whole number of units. Digits are cut off, never
//! rounded.

use vstd::prelude::*;
use crate::text::chars_of;

verus! {

/// Bytes in a kilobyte.
pub const KILO: u64 = 1_000;

/// Bytes in a megabyte.
pub const MEGA: u64 = 1_000_000;

/// Bytes in a gigabyte.
pub const GIGA: u64 = 1_000_000_000;

/// The mark between the whole part and the decimal places.
pub const POINT: char = '.';

/// The character for a value below ten.
pub open spec fn digit(d: nat) -> char {
    (48 + d) as u8 as char
}

/// Whether `c` is one of the ten digits.
pub open spec fn is_digit(c: char) -> bool {
    '0' <= c <= '9'
}

/// The decimal numeral of `n`, without leading zeros.
pub open spec fn decimal(n: nat) -> Seq<char>
    decreases n,
{
    if n < 10 {
        seq![digit(n)]
    } else {
        decimal(n / 10).push(digit(n % 10))
    }
}

/// The last `width` decimal digits of `n`, with zeros in front where `n` has
/// fewer.
pub open spec fn padded(n: nat, width: nat) -> Seq<char>
    decreases width,
{
    if width == 0 {
        Seq::<char>::empty()
    } else {
        padded(n / 10, (width - 1) as nat).push(digit(n % 10))
    }
}

/// The quotient of `bytes` by a unit of `width` zeros, written out in full:
/// the whole part and, where there is a remainder, the point and all `width`
/// decimal places.
pub open spec fn quotient_text(bytes: nat, unit: nat, width: nat) -> Seq<char> {
    if bytes % unit == 0 {
        decimal(bytes / unit)
    } else {
        decimal(bytes / unit).push(POINT) + padded(bytes % unit, width)
    }
}

/// The same quotient with at most one decimal place, the others cut off.
pub open spec fn short_quotient(bytes: nat, unit: nat) -> Seq<char> {
    if bytes % unit == 0 {
        decimal(bytes / unit)
    } else {
        decimal(bytes / unit).push(POINT).push(digit((bytes % unit) / (unit / 10)))
    }
}

/// Where `c` first occurs in `s`; the length of `s` where it does not occur.
pub open spec fn first_index_of(s: Seq<char>, c: char) -> int
    decreases s.len(),
{
    if s.len() == 0 {
        0
    } else if s[0] == c {
        0
    } else {
        1 + first_index_of(s.drop_first(), c)
    }
}

/// A numeral cut off after its first decimal place: `text` up to and
/// including the character behind the first point. A text without point, or
/// with nothing behind it, is left as it is.
pub open spec fn truncated(text: Seq<char>) -> Seq<char> {
    let point = first_index_of(text, POINT);
    if point + 2 <= text.len() {
        text.take(point + 2)
    } else {
        text
    }
}

/// The text for a byte count: the count scaled to its unit, with at most one
/// decimal place, and the unit's name.
pub open spec fn size_text(bytes: nat) -> Seq<char> {
    if bytes < KILO {
        decimal(bytes) + seq!['b']
    } else if bytes < MEGA {
        short_quotient(bytes, KILO as nat) + seq!['k', 'b']
    } else if bytes < GIGA {
        short_quotient(bytes, MEGA as nat) + seq!['m', 'b']
    } else {
        short_quotient(bytes, GIGA as nat) + seq!['g', 'b']
    }
}

/// Whether `text` is the name of a unit.
pub open spec fn is_unit(text: Seq<char>) -> bool {
    ||| text == seq!['b']
    ||| text == seq!['k', 'b']
    ||| text == seq!['m', 'b']
    ||| text == seq!['g', 'b']
}

/// Whether every character of `text` is a digit.
pub open spec fn all_digits(text: Seq<char>) -> bool {
    forall|i: int| 0 <= i < text.len() ==> is_digit(#[trigger] text[i])
}

/// Whether `text` is a numeral with at most one decimal place: digits, or
/// digits, a point and one digit.
pub open spec fn is_short_numeral(text: Seq<char>) -> bool {
    ||| text.len() >= 1 && all_digits(text)
    ||| {
        &&& text.len() >= 3
        &&& all_digits(text.take(text.len() - 2))
        &&& text[text.len() - 2] == POINT
        &&& is_digit(text[text.len() - 1])
    }
}

/// The first index is where the character stands with none like it before.
pub proof fn lemma_first_index_of(s: Seq<char>, c: char, i: int)
    requires
        0 <= i <= s.len(),
        forall|j: int| 0 <= j < i ==> s[j] != c,
        i < s.len() ==> s[i] == c,
    ensures
        first_index_of(s, c) == i,
    decreases i,
{
    if i > 0 {
        let tail = s.drop_first();
        assert forall|j: int| 0 <= j < i - 1 implies tail[j] != c by {}
        lemma_first_index_of(tail, c, i - 1);
    }
}

/// A numeral is made of digits, and of at least one.
pub proof fn lemma_decimal_digits(n: nat)
    ensures
        decimal(n).len() >= 1,
        all_digits(decimal(n)),
    decreases n,
{
    if n >= 10 {
        lemma_decimal_digits(n / 10);
    }
}

/// A padded numeral has the width asked for.
pub proof fn lemma_padded_len(n: nat, width: nat)
    ensures
        padded(n, width).len() == width,
    decreases width,
{
    if width > 0 {
        lemma_padded_len(n / 10, (width - 1) as nat);
    }
}

/// Ten to the power of `width`.
pub open spec fn power_of_ten(width: nat) -> nat
    decreases width,
{
    if width == 0 {
        1
    } else {
        10 * power_of_ten((width - 1) as nat)
    }
}

/// The first of the padded digits of a number that fits the width is its
/// leading one.
pub proof fn lemma_padded_first(n: nat, width: nat)
    requires
        width >= 1,
        n < power_of_ten(width),
    ensures
        padded(n, width).len() == width,
        padded(n, width)[0] == digit(n / power_of_ten((width - 1) as nat)),
    decreases width,
{
    lemma_padded_len(n, width);
    lemma_padded_len(n / 10, (width - 1) as nat);
    if width == 1 {
        assert(power_of_ten(0) == 1);
        assert(padded(n / 10, 0).len() == 0);
    } else {
        let lower = power_of_ten((width - 2) as nat);
        assert(power_of_ten((width - 1) as nat) == 10 * lower);
        lemma_padded_first(n / 10, (width - 1) as nat);
        assert(lower > 0);
        vstd::arithmetic::div_mod::lemma_div_denominator(n as int, 10, lower as int);
    }
}

/// Cutting the full quotient off behind its first decimal place gives the
/// short one.
pub proof fn lemma_truncated_quotient(bytes: nat, unit: nat, width: nat)
    requires
        (unit == KILO && width == 3) || (unit == MEGA && width == 6) || (unit == GIGA && width
            == 9),
    ensures
        truncated(quotient_text(bytes, unit, width)) == short_quotient(bytes, unit),
{
    let whole = decimal(bytes / unit);
    let rem = bytes % unit;
    lemma_decimal_digits(bytes / unit);
    if rem == 0 {
        assert forall|j: int| 0 <= j < whole.len() implies whole[j] != POINT by {}
        lemma_first_index_of(whole, POINT, whole.len() as int);
    } else {
        let places = padded(rem, width);
        let full = whole.push(POINT) + places;
        lemma_padded_len(rem, width);
        assert forall|j: int| 0 <= j < whole.len() implies full[j] != POINT by {}
        lemma_first_index_of(full, POINT, whole.len() as int);
        assert(unit == power_of_ten(width) && unit / 10 == power_of_ten((width - 1) as nat)) by {
            reveal_with_fuel(power_of_ten, 10);
        }
        lemma_padded_first(rem, width);
    }
}

/// Every size text is a numeral with at most one decimal place, followed by
/// the name of exactly one unit.
pub proof fn lemma_size_text_shape(bytes: nat)
    ensures
        exists|numeral: Seq<char>, unit: Seq<char>|
            {
                &&& size_text(bytes) == numeral + unit
                &&& is_short_numeral(numeral)
                &&& is_unit(unit)
            },
{
    if bytes < KILO {
        lemma_decimal_digits(bytes);
        let numeral = decimal(bytes);
        let unit = seq!['b'];
        assert(size_text(bytes) == numeral + unit && is_short_numeral(numeral) && is_unit(unit));
    } else if bytes < MEGA {
        lemma_short_quotient_shape(bytes, KILO as nat);
        let numeral = short_quotient(bytes, KILO as nat);
        let unit = seq!['k', 'b'];
        assert(size_text(bytes) == numeral + unit && is_short_numeral(numeral) && is_unit(unit));
    } else if bytes < GIGA {
        lemma_short_quotient_shape(bytes, MEGA as nat);
        let numeral = short_quotient(bytes, MEGA as nat);
        let unit = seq!['m', 'b'];
        assert(size_text(bytes) == numeral + unit && is_short_numeral(numeral) && is_unit(unit));
    } else {
        lemma_short_quotient_shape(bytes, GIGA as nat);
        let numeral = short_quotient(bytes, GIGA as nat);
        let unit = seq!['g', 'b'];
        assert(size_text(bytes) == numeral + unit && is_short_numeral(numeral) && is_unit(unit));
    }
}

/// A text is a numeral followed by a unit in one way at most.
pub proof fn lemma_one_unit(
    numeral: Seq<char>,
    unit: Seq<char>,
    other_numeral: Seq<char>,
    other_unit: Seq<char>,
)
    requires
        is_short_numeral(numeral),
        is_short_numeral(other_numeral),
        is_unit(unit),
        is_unit(other_unit),
        numeral + unit == other_numeral + other_unit,
    ensures
        numeral == other_numeral,
        unit == other_unit,
{
    let text = numeral + unit;
    let other = other_numeral + other_unit;
    assert(text.len() == other.len());
    if unit.len() < other_unit.len() {
        assert(other[other_numeral.len() as int] == other_unit[0]);
    } else if other_unit.len() < unit.len() {
        assert(text[numeral.len() as int] == unit[0]);
    } else {
        assert(other_numeral == other.take(numeral.len() as int));
        assert(other_unit == other.skip(numeral.len() as int));
    }
}

/// A short quotient is a numeral with at most one decimal place.
pub proof fn lemma_short_quotient_shape(bytes: nat, unit: nat)
    requires
        unit >= 10,
        unit % 10 == 0,
    ensures
        is_short_numeral(short_quotient(bytes, unit)),
{
    lemma_decimal_digits(bytes / unit);
    if bytes % unit != 0 {
        let rem = bytes % unit;
        let tenth = rem / (unit / 10);
        assert(tenth < 10) by (nonlinear_arith)
            requires
                rem < unit,
                unit >= 10,
                unit % 10 == 0,
                tenth == rem / (unit / 10),
        ;
    }
}

/// Appends the decimal numeral of `n` to `out`.
fn push_decimal(out: &mut String, n: u64)
    ensures
        final(out)@ == old(out)@ + decimal(n as nat),
    decreases n,
{
    if n >= 10 {
        push_decimal(out, n / 10);
    }
    out.push((48u8 + (n % 10) as u8) as char);
}

/// Appends the last `width` digits of `n` to `out`.
fn push_padded(out: &mut String, n: u64, width: u8)
    ensures
        final(out)@ == old(out)@ + padded(n as nat, width as nat),
    decreases width,
{
    if width > 0 {
        push_padded(out, n / 10, width - 1);
        out.push((48u8 + (n % 10) as u8) as char);
    }
}

/// Writes out the quotient of `bytes` by `unit` in full.
fn quotient(bytes: u64, unit: u64, width: u8) -> (text: String)
    requires
        unit > 0,
    ensures
        text@ == quotient_text(bytes as nat, unit as nat, width as nat),
{
    let mut text = String::new();
    push_decimal(&mut text, bytes / unit);
    if bytes % unit != 0 {
        text.push(POINT);
        push_padded(&mut text, bytes % unit, width);
    }
    text
}

/// Cuts a numeral off behind its first decimal place.
pub fn truncate_decimal(s: &String) -> (cut: String)
    ensures
        cut@ == truncated(s@),
{
    let chars = chars_of(s.as_str());
    let mut point: usize = 0;
    while point < chars.len() && chars[point] != POINT
        invariant
            point <= chars.len(),
            forall|j: int| 0 <= j < point ==> chars@[j] != POINT,
        decreases chars.len() - point,
    {
        point += 1;
    }
    proof {
        lemma_first_index_of(s@, POINT, point as int);
    }
    if chars.len() - point < 2 {
        return s.clone();
    }
    let end: usize = point + 2;
    let mut cut = String::new();
    let mut i: usize = 0;
    while i < end
        invariant
            i <= end <= chars.len(),
            chars@ == s@,
            cut@ == s@.take(i as int),
        decreases end - i,
    {
        cut.push(chars[i]);
        i += 1;
    }
    cut
}

/// The text for a size of `bytes` bytes.
pub fn size_str(bytes: u64) -> (text: String)
    ensures
        text@ == size_text(bytes as nat),
{
    if bytes < KILO {
        let mut text = String::new();
        push_decimal(&mut text, bytes);
        text.push('b');
        text
    } else if bytes < MEGA {
        proof {
            lemma_truncated_quotient(bytes as nat, KILO as nat, 3);
        }
        let mut text = truncate_decimal(&quotient(bytes, KILO, 3));
        text.push('k');
        text.push('b');
        text
    } else if bytes < GIGA {
        proof {
            lemma_truncated_quotient(bytes as nat, MEGA as nat, 6);
        }
        let mut text = truncate_decimal(&quotient(bytes, MEGA, 6));
        text.push('m');
        text.push('b');
        text
    } else {
        proof {
            lemma_truncated_quotient(bytes as nat, GIGA as nat, 9);
        }
        let mut text = truncate_decimal(&quotient(bytes, GIGA, 9));
        text.push('g');
        text.push('b');
        text
    }
}

} // verus!
