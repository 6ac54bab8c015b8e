//! What numbers, rates and sizes are as text, told digit by digit.

use vstd::arithmetic::power2::{
    lemma2_to64, lemma2_to64_rest, lemma_pow2_strictly_increases, lemma_pow2_unfold, pow2,
};
use vstd::prelude::*;
use crate::cli::{rate_bytes, trailing_url_text};
use crate::decimal::{
    decimal, digit_char, digit_value, digits_value, is_digit, parse_u64, unsigned_part,
};
use crate::downloader::REPORT_INTERVAL;
use crate::logger::{
    double_step, file_size_text, lemma_step_range, nearest_double, round_half_even,
    rounding_is_to_nearest, shown_hundredths, shown_unit, two_decimals,
};
use crate::mirror::{CONNECTION_TIMEOUT, MAX_CONCURRENT_REQUESTS};
use crate::progress::{bar_text, progress_text, Measures};
use crate::text::{is_white_space, trim};
use crate::text_laws::trimming_keeps_what_white_space_surrounds;

verus! {

/// The ten digits have the values from zero to nine, and no other character is a digit.
pub proof fn digits_have_their_values(c: char, d: nat)
    ensures
        is_digit(c) <==> '0' <= c <= '9',
        is_digit(c) ==> c as int == '0' as int + digit_value(c),
        d < 10 ==> digit_char(d) as int == '0' as int + d,
{
}

/// A digit behind others counts once, and each of the others ten times what it did.
pub proof fn a_further_digit_counts_once(s: Seq<char>, c: char)
    ensures
        digits_value(Seq::<char>::empty()) == 0,
        digits_value(s.push(c)) == 10 * digits_value(s) + digit_value(c),
{
    assert(s.push(c).drop_last() =~= s);
}

/// A number is written as the number without its last digit, and then that digit; a number
/// below ten is one digit.
pub proof fn numbers_are_written_digit_by_digit(q: nat, d: nat)
    requires
        d < 10,
    ensures
        decimal(d).len() == 1,
        decimal(d)[0] as int == '0' as int + d,
        q > 0 ==> decimal(10 * q + d).drop_last() == decimal(q) && decimal(
            10 * q + d,
        ).last() as int == '0' as int + d,
{
    if q > 0 {
        assert((10 * q + d) / 10 == q && (10 * q + d) % 10 == d);
        assert(decimal(10 * q + d).drop_last() =~= decimal(q));
    }
}

/// Whether a text is made of digits, and of at least one.
pub open spec fn all_digits(s: Seq<char>) -> bool {
    s.len() > 0 && forall|i: int| 0 <= i < s.len() ==> '0' <= #[trigger] s[i] <= '9'
}

/// A 64-bit number is read from its digits, with or without a plus sign in front; a number that
/// is larger, and a text with any other character, is none.
pub proof fn numbers_are_read_from_digits(s: Seq<char>, i: int)
    ensures
        all_digits(s) && digits_value(s) <= u64::MAX ==> parse_u64(s) == Some(digits_value(s))
            && parse_u64(seq!['+'] + s) == Some(digits_value(s)),
        all_digits(s) && digits_value(s) > u64::MAX ==> parse_u64(s) is None && parse_u64(
            seq!['+'] + s,
        ) is None,
        s.len() == 0 ==> parse_u64(s) is None && parse_u64(seq!['+'] + s) is None,
        0 <= i < s.len() && !('0' <= s[i] <= '9') && !(i == 0 && s[0] == '+') ==> parse_u64(s) is
            None,
{
    let signed = seq!['+'] + s;
    assert(signed.drop_first() =~= s);
    if s.len() > 0 && '0' <= s[0] <= '9' {
        assert(unsigned_part(s) == s);
    }
    if 0 <= i < s.len() && !('0' <= s[i] <= '9') && !(i == 0 && s[0] == '+') {
        if s[0] == '+' {
            assert(unsigned_part(s)[i - 1] == s[i]);
            assert(!is_digit(unsigned_part(s)[i - 1]));
        } else {
            assert(!is_digit(unsigned_part(s)[i]));
        }
    }
}

/// The bytes that a number and its unit make, where 64 bits hold them.
pub open spec fn bytes_of(number: nat, unit: nat) -> Option<nat> {
    if number <= u64::MAX && number * unit <= u64::MAX {
        Some(number * unit)
    } else {
        None
    }
}

/// A rate limit is a number of bytes, or of 1024 bytes with a `k`, or of 1024 times as many with
/// an `M`, in upper or lower case and with white space round it; the sign of the kelvin is a
/// `k` in upper case too.
pub proof fn rates_count_bytes(before: Seq<char>, digits: Seq<char>, after: Seq<char>)
    requires
        all_digits(digits),
        forall|i: int| 0 <= i < before.len() ==> is_white_space(#[trigger] before[i]),
        forall|i: int| 0 <= i < after.len() ==> is_white_space(#[trigger] after[i]),
    ensures
        rate_bytes(before + digits + after) == bytes_of(digits_value(digits), 1),
        rate_bytes(before + digits.push('k') + after) == bytes_of(digits_value(digits), 1024),
        rate_bytes(before + digits.push('K') + after) == bytes_of(digits_value(digits), 1024),
        rate_bytes(before + digits.push('\u{212a}') + after) == bytes_of(
            digits_value(digits),
            1024,
        ),
        rate_bytes(before + digits.push('m') + after) == bytes_of(
            digits_value(digits),
            1024 * 1024,
        ),
        rate_bytes(before + digits.push('M') + after) == bytes_of(
            digits_value(digits),
            1024 * 1024,
        ),
{
    numbers_are_read_from_digits(digits, 0);
    assert('0' <= digits[0] <= '9');
    assert('0' <= digits[digits.len() - 1] <= '9');
    trimming_keeps_what_white_space_surrounds(before, digits, after);
    trimming_keeps_what_white_space_surrounds(before, digits.push('k'), after);
    trimming_keeps_what_white_space_surrounds(before, digits.push('K'), after);
    trimming_keeps_what_white_space_surrounds(before, digits.push('\u{212a}'), after);
    trimming_keeps_what_white_space_surrounds(before, digits.push('m'), after);
    trimming_keeps_what_white_space_surrounds(before, digits.push('M'), after);
    assert(digits.push('k').drop_last() =~= digits);
    assert(digits.push('K').drop_last() =~= digits);
    assert(digits.push('\u{212a}').drop_last() =~= digits);
    assert(digits.push('m').drop_last() =~= digits);
    assert(digits.push('M').drop_last() =~= digits);
}

/// A rate limit is what stands before its unit, read as a number, whatever it is: with no number
/// there, it is none.
pub proof fn rates_are_numbers_with_a_unit(
    before: Seq<char>,
    number: Seq<char>,
    unit: char,
    after: Seq<char>,
)
    requires
        forall|i: int| 0 <= i < before.len() ==> is_white_space(#[trigger] before[i]),
        forall|i: int| 0 <= i < after.len() ==> is_white_space(#[trigger] after[i]),
        number.len() > 0 ==> !is_white_space(number[0]),
        !is_white_space(unit),
    ensures
        ({
            let rate = rate_bytes(before + number.push(unit) + after);
            if unit == 'k' || unit == 'K' || unit == '\u{212a}' {
                match parse_u64(number) {
                    Some(n) => rate == bytes_of(n, 1024),
                    None => rate is None,
                }
            } else if unit == 'm' || unit == 'M' {
                match parse_u64(number) {
                    Some(n) => rate == bytes_of(n, 1024 * 1024),
                    None => rate is None,
                }
            } else {
                match parse_u64(number.push(unit)) {
                    Some(n) => rate == bytes_of(n, 1),
                    None => rate is None,
                }
            }
        }),
{
    trimming_keeps_what_white_space_surrounds(before, number.push(unit), after);
    assert(number.push(unit).drop_last() =~= number);
}

/// What no number stands in is no rate limit: the empty text, and a text with a character that
/// is neither a digit nor a sign in front nor a unit at the end.
pub proof fn other_texts_are_no_rates(s: Seq<char>, i: int)
    requires
        trim(s) == s,
    ensures
        s.len() == 0 ==> rate_bytes(s) is None,
        0 <= i < s.len() - 1 && !('0' <= s[i] <= '9') && !(i == 0 && s[0] == '+') ==> rate_bytes(
            s,
        ) is None,
        s.len() > 0 && !('0' <= s.last() <= '9') && s.last() != 'k' && s.last() != 'K' && s.last()
            != '\u{212a}' && s.last() != 'm' && s.last() != 'M' ==> rate_bytes(s) is None,
{
    numbers_are_read_from_digits(s, i);
    numbers_are_read_from_digits(s, s.len() - 1);
    numbers_are_read_from_digits(s.drop_first(), 0);
    if s.len() == 1 {
        assert(s =~= seq!['+'] + s.drop_first() || s[0] != '+');
    }
    if 0 <= i < s.len() - 1 {
        numbers_are_read_from_digits(s.drop_last(), i);
    }
}

/// The last word of a command line is its URL where it is no option and assigns nothing, and
/// where the word before it is no option; the name of the program is none.
pub proof fn the_last_word_is_the_url(words: Seq<Seq<char>>, before: Seq<char>, last: Seq<char>)
    ensures
        ({
            let option = last.len() > 0 && last[0] == '-';
            let value = before.len() > 0 && before[0] == '-';
            let line = words.push(before).push(last);
            trailing_url_text(line) == if !option && !last.contains('=') && !value {
                Some(last)
            } else {
                None
            }
        }),
        trailing_url_text(seq![last]) is None,
        trailing_url_text(Seq::<Seq<char>>::empty()) is None,
{
}

/// Half of a unit is rounded to the even number, and anything else to the nearest.
pub proof fn halves_are_rounded_to_even(num: nat, den: nat)
    requires
        den > 0,
    ensures
        2 * num <= 2 * (round_half_even(num, den) * den) + den,
        2 * (round_half_even(num, den) * den) <= 2 * num + den,
        2 * num == 2 * (round_half_even(num, den) * den) + den || 2 * (round_half_even(num, den)
            * den) == 2 * num + den ==> round_half_even(num, den) % 2 == 0,
{
    rounding_is_to_nearest(num, den);
    let floor = num / den;
    vstd::arithmetic::div_mod::lemma_fundamental_div_mod(num as int, den as int);
    assert(floor * den == den * floor && (floor + 1) * den == den * floor + den)
        by (nonlinear_arith);
}

/// Whether a text is a number of hundredths with a point before the last two digits.
pub open spec fn shows_hundredths(text: Seq<char>, hundredths: nat) -> bool {
    exists|whole: nat, tens: nat, ones: nat| #[trigger]
        is_point_number(text, whole, tens, ones) && hundredths == 100 * whole + 10 * tens + ones
}

/// Whether a text is a whole number, a point and two digits.
pub open spec fn is_point_number(text: Seq<char>, whole: nat, tens: nat, ones: nat) -> bool {
    &&& tens < 10 && ones < 10
    &&& text == decimal(whole) + seq!['.', decimal(tens)[0], decimal(ones)[0]]
}

/// Whether a size is no farther than half a hundredth of a unit from a number of hundredths,
/// which is even where it is as far as that.
pub open spec fn is_nearest(hundredths: nat, size: nat, unit: nat) -> bool {
    let shown = 2 * (hundredths * unit);
    let exact = 2 * (size * 100);
    &&& exact <= shown + unit
    &&& shown <= exact + unit
    &&& exact == shown + unit || shown == exact + unit ==> hundredths % 2 == 0
}

/// Whether a text shows a size in hundredths of a unit, to the nearest, and names the unit.
pub open spec fn shows_in_unit(
    text: Seq<char>,
    size: nat,
    unit: nat,
    name: Seq<char>,
) -> bool {
    exists|number: Seq<char>, h: nat| #[trigger]
        shows_hundredths(number, h) && text == number + name && is_nearest(h, size, unit)
}

/// A size is shown in the largest of the units that it reaches: as many hundredths of the unit
/// as are nearest to the double that is nearest to it. Below the first unit it is shown in full.
pub proof fn sizes_are_shown_to_the_nearest_hundredth(size: nat)
    ensures
        size < 1024 ==> file_size_text(size) == decimal(size) + " bytes"@,
        1024 <= size < 1048576 ==> shows_in_unit(
            file_size_text(size),
            nearest_double(size),
            1024,
            " KB"@,
        ),
        1048576 <= size < 1073741824 ==> shows_in_unit(
            file_size_text(size),
            nearest_double(size),
            1048576,
            " MB"@,
        ),
        size >= 1073741824 ==> shows_in_unit(
            file_size_text(size),
            nearest_double(size),
            1073741824,
            " GB"@,
        ),
{
    let double = nearest_double(size);
    let h = shown_hundredths(size);
    halves_are_rounded_to_even(double * 100, shown_unit(size));
    lemma_two_decimals(h);
    assert(shows_hundredths(two_decimals(h), h));
    assert(is_nearest(h, double, shown_unit(size)));
}

/// Two digits stand behind the point of a number of hundredths.
proof fn lemma_two_decimals(h: nat)
    ensures
        shows_hundredths(two_decimals(h), h),
{
    let whole = h / 100;
    let tens = h / 10 % 10;
    let ones = h % 10;
    numbers_are_written_digit_by_digit(0, tens);
    numbers_are_written_digit_by_digit(0, ones);
    assert(decimal(tens)[0] == digit_char(tens));
    assert(decimal(ones)[0] == digit_char(ones));
    assert(is_point_number(two_decimals(h), whole, tens, ones));
}

/// A double is a number below two to the 53 itself, and else no farther from the number than
/// one part in two to the 53 of it.
pub proof fn doubles_are_near(size: nat)
    ensures
        size < 0x20_0000_0000_0000 ==> nearest_double(size) == size,
        0x20_0000_0000_0000 * nearest_double(size) <= 0x20_0000_0000_0001 * size,
        0x20_0000_0000_0000 * size <= 0x20_0000_0000_0000 * nearest_double(size) + size,
{
    lemma_step_range(size);
    let step = double_step(size);
    rounding_is_to_nearest(size, step);
    if size < 0x20_0000_0000_0000 {
        assert(round_half_even(size, 1) == size);
    }
}

/// A double of a number that takes more than 53 binary digits has zeros behind the first 53:
/// it is the nearest such number, and of two the one whose last digit is even.
pub proof fn doubles_have_53_digits(size: nat, more: nat)
    requires
        pow2(52 + more) <= size < pow2(53 + more),
    ensures
        nearest_double(size) == round_half_even(size, pow2(more)) * pow2(more),
{
    lemma_step_of_digits(size, more);
}

proof fn lemma_step_of_digits(size: nat, more: nat)
    requires
        pow2(52 + more) <= size < pow2(53 + more),
    ensures
        double_step(size) == pow2(more),
    decreases more,
{
    lemma2_to64();
    lemma2_to64_rest();
    if more > 0 {
        lemma_pow2_unfold(53 + more);
        lemma_pow2_unfold(52 + more);
        lemma_pow2_unfold(more);
        if more > 1 {
            lemma_pow2_strictly_increases(53, 52 + more);
        }
        lemma_step_of_digits(size / 2, (more - 1) as nat);
    }
}

/// A bar has a full sign at each place before the filled width, the tip there, blanks behind it,
/// and brackets round them.
pub proof fn bars_show_their_filled_width(filled: nat, i: int)
    requires
        0 <= i < 50,
    ensures
        bar_text(filled).len() == 52,
        bar_text(filled)[0] == '[',
        bar_text(filled)[51] == ']',
        i < filled ==> bar_text(filled)[i + 1] == '=',
        i == filled ==> bar_text(filled)[i + 1] == '>',
        i > filled ==> bar_text(filled)[i + 1] == ' ',
{
}

/// A line of progress begins with the bytes that arrived, all bytes and the bar; the per cent
/// stands behind it; the line ends with the speed and the seconds that are left; and between
/// them stands a mark where everything arrived, and only there.
pub proof fn progress_tells_everything(
    current: Seq<char>,
    total: Seq<char>,
    speed: Seq<char>,
    measures: Measures,
)
    ensures
        ({
            let line = progress_text(current, total, speed, measures);
            let start = current + " / "@ + total + " "@ + bar_text(measures.filled_width as nat)
                + " "@ + measures.percent@ + "% "@;
            let end = " "@ + speed + "/s "@ + decimal(measures.eta_secs as nat) + "s"@;
            &&& start.is_prefix_of(line)
            &&& end.is_suffix_of(line)
            &&& line.len() == start.len() + end.len() + if measures.complete {
                1nat
            } else {
                0nat
            }
            &&& measures.complete ==> line[start.len() as int] == '✓'
        }),
{
    let line = progress_text(current, total, speed, measures);
    let start = current + " / "@ + total + " "@ + bar_text(measures.filled_width as nat) + " "@
        + measures.percent@ + "% "@;
    let end = " "@ + speed + "/s "@ + decimal(measures.eta_secs as nat) + "s"@;
    reveal_strlit("✓");
    let mark = if measures.complete {
        "✓"@
    } else {
        Seq::empty()
    };
    assert(line =~= start + mark + end);
    assert(start =~= line.subrange(0, start.len() as int));
    assert(end =~= line.subrange(line.len() - end.len(), line.len() as int));
}

/// Ten requests may be under way at once, each for thirty seconds; and progress is reported
/// with each mebibyte.
pub proof fn limits_of_a_run()
    ensures
        MAX_CONCURRENT_REQUESTS == 10,
        CONNECTION_TIMEOUT == 30,
        REPORT_INTERVAL == 1024 * 1024,
{
}

} // verus!
