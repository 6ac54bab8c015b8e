//! What the log says of sizes.

use vstd::prelude::*;
use vstd::string::StringExecFns;
use crate::decimal::{decimal, digit_char, push_decimal, push_digit};

verus! {

pub const KB: u64 = 1024;

pub const MB: u64 = 1048576;

pub const GB: u64 = 1073741824;

/// `num / den` rounded to the nearest whole number, ties to the even one.
pub open spec fn round_half_even(num: nat, den: nat) -> nat {
    let floor = num / den;
    let twice = 2 * (num % den);
    if twice < den {
        floor
    } else if twice > den {
        floor + 1
    } else {
        floor + floor % 2
    }
}

/// The distance of neighbouring double-precision numbers at `n`, where it is at least one.
pub open spec fn double_step(n: nat) -> nat
    decreases n,
{
    if n < 0x20_0000_0000_0000 {
        1
    } else {
        2 * double_step(n / 2)
    }
}

/// The double-precision number nearest to `n`.
pub open spec fn nearest_double(n: nat) -> nat {
    round_half_even(n, double_step(n)) * double_step(n)
}

/// A number of hundredths, with two digits behind the point.
pub open spec fn two_decimals(hundredths: nat) -> Seq<char> {
    decimal(hundredths / 100) + seq![
        '.',
        digit_char(hundredths / 10 % 10),
        digit_char(hundredths % 10),
    ]
}

/// The unit that a size is shown in: the largest that it reaches.
pub open spec fn shown_unit(size: nat) -> nat {
    if size >= GB {
        GB as nat
    } else if size >= MB {
        MB as nat
    } else if size >= KB {
        KB as nat
    } else {
        1
    }
}

/// The hundredths of its unit that a size is shown as, rounded to a whole number.
pub open spec fn shown_hundredths(size: nat) -> nat {
    round_half_even(nearest_double(size) * 100, shown_unit(size))
}

/// How a size is shown: in the largest unit that it reaches, with two digits behind the point;
/// a number of bytes has none.
pub open spec fn file_size_text(size: nat) -> Seq<char> {
    if size >= GB {
        two_decimals(shown_hundredths(size)) + " GB"@
    } else if size >= MB {
        two_decimals(shown_hundredths(size)) + " MB"@
    } else if size >= KB {
        two_decimals(shown_hundredths(size)) + " KB"@
    } else {
        decimal(size) + " bytes"@
    }
}

/// The step between doubles is no more than a 64-bit number needs.
proof fn lemma_double_step(n: nat)
    requires
        n <= u64::MAX,
    ensures
        1 <= double_step(n) <= 2048,
{
    reveal_with_fuel(double_step, 13);
}

/// Computes the distance of neighbouring doubles.
fn step_at(n: u64) -> (step: u64)
    ensures
        step == double_step(n as nat),
        1 <= step <= 2048,
    decreases n,
{
    proof {
        lemma_double_step(n as nat);
    }
    if n < 0x20_0000_0000_0000 {
        1
    } else {
        2 * step_at(n / 2)
    }
}

/// Divides, rounding to the nearest whole number, ties to the even one.
fn divide_half_even(num: u128, den: u128) -> (r: u128)
    requires
        0 < den < 0x1_0000_0000,
        num < 0x1_0000_0000_0000_0000_0000_0000,
    ensures
        r == round_half_even(num as nat, den as nat),
        r * den <= num + den,
{
    let floor = num / den;
    let rest = num % den;
    proof {
        vstd::arithmetic::div_mod::lemma_fundamental_div_mod(num as int, den as int);
        assert(floor * den == den * floor && (floor + 1) * den == den * floor + den)
            by (nonlinear_arith);
        assert(floor <= den * floor) by (nonlinear_arith)
            requires
                0 < den,
                0 <= floor,
        ;
    }
    if 2 * rest < den {
        floor
    } else if 2 * rest > den {
        floor + 1
    } else {
        floor + floor % 2
    }
}

/// Appends a size in its unit, rounded to two digits behind the point.
fn push_in_unit(out: &mut String, size: u64, unit: u64)
    requires
        KB <= unit <= GB,
        unit == shown_unit(size as nat),
    ensures
        final(out)@ == old(out)@ + two_decimals(shown_hundredths(size as nat)),
{
    let step = step_at(size);
    let steps = divide_half_even(size as u128, step as u128);
    let double = steps * step as u128;
    let hundredths = divide_half_even(double * 100, unit as u128);
    assert(hundredths * 1024 <= hundredths * unit) by (nonlinear_arith)
        requires
            1024 <= unit,
            0 <= hundredths,
    ;
    push_decimal(out, (hundredths / 100) as u64);
    out.push('.');
    push_digit(out, (hundredths / 10 % 10) as u64);
    push_digit(out, (hundredths % 10) as u64);
    assert(out@ =~= old(out)@ + two_decimals(shown_hundredths(size as nat)));
}

/// Formats a file size for display.
pub fn format_file_size(size: u64) -> (r: String)
    ensures
        r@ == file_size_text(size as nat),
{
    let mut out = String::new();
    if size >= GB {
        push_in_unit(&mut out, size, GB);
        out.append(" GB");
    } else if size >= MB {
        push_in_unit(&mut out, size, MB);
        out.append(" MB");
    } else if size >= KB {
        push_in_unit(&mut out, size, KB);
        out.append(" KB");
    } else {
        push_decimal(&mut out, size);
        out.append(" bytes");
    }
    assert(out@ =~= file_size_text(size as nat));
    out
}

/// The rounded quotient is no farther than one half from the exact one.
pub proof fn rounding_is_to_nearest(num: nat, den: nat)
    requires
        den > 0,
    ensures
        2 * num <= 2 * (round_half_even(num, den) * den) + den,
        2 * (round_half_even(num, den) * den) <= 2 * num + den,
{
    let floor = num / den;
    vstd::arithmetic::div_mod::lemma_fundamental_div_mod(num as int, den as int);
    assert(floor * den == den * floor && (floor + 1) * den == den * floor + den)
        by (nonlinear_arith);
}

/// A size below two to the 53 is shown in hundredths of its unit, rounded to the nearest.
pub proof fn shown_size_is_nearest(size: nat)
    requires
        size < 0x20_0000_0000_0000,
    ensures
        shown_hundredths(size) == round_half_even(size * 100, shown_unit(size)),
{
    assert(double_step(size) == 1);
    lemma_round_whole(size, 1);
}

/// A whole number stays what it is.
proof fn lemma_round_whole(n: nat, den: nat)
    requires
        den > 0,
    ensures
        round_half_even(n * den, den) == n,
{
    vstd::arithmetic::div_mod::lemma_div_multiples_vanish(n as int, den as int);
    vstd::arithmetic::div_mod::lemma_mod_multiples_basic(n as int, den as int);
    assert(n * den == den * n) by (nonlinear_arith);
}

/// A larger number is not rounded to a smaller one.
proof fn lemma_round_grows(a: nat, b: nat, den: nat)
    requires
        den > 0,
        a <= b,
    ensures
        round_half_even(a, den) <= round_half_even(b, den),
{
    vstd::arithmetic::div_mod::lemma_fundamental_div_mod(a as int, den as int);
    vstd::arithmetic::div_mod::lemma_fundamental_div_mod(b as int, den as int);
    vstd::arithmetic::div_mod::lemma_div_is_ordered(a as int, b as int, den as int);
}

/// Where the doubles lie that are a given step apart.
pub proof fn lemma_step_range(n: nat)
    ensures
        double_step(n) > 0,
        n < 0x20_0000_0000_0000 * double_step(n),
        double_step(n) > 1 ==> n >= 0x10_0000_0000_0000 * double_step(n),
    decreases n,
{
    if n >= 0x20_0000_0000_0000 {
        lemma_step_range(n / 2);
    }
}

/// The steps of larger doubles are the same, or at least twice as large.
proof fn lemma_step_grows(a: nat, b: nat)
    requires
        a <= b,
    ensures
        double_step(a) == double_step(b) || 2 * double_step(a) <= double_step(b),
    decreases b,
{
    lemma_step_range(b / 2);
    if a >= 0x20_0000_0000_0000 {
        lemma_step_grows(a / 2, b / 2);
    }
}

/// A larger number has no smaller nearest double.
proof fn lemma_nearest_double_grows(a: nat, b: nat)
    requires
        a <= b,
    ensures
        nearest_double(a) <= nearest_double(b),
{
    let s = double_step(a);
    let t = double_step(b);
    let x = round_half_even(a, s);
    let y = round_half_even(b, t);
    lemma_step_grows(a, b);
    lemma_step_range(a);
    lemma_step_range(b);
    if s == t {
        lemma_round_grows(a, b, s);
        assert(x * s <= y * s) by (nonlinear_arith)
            requires
                x <= y,
        ;
    } else {
        lemma_round_grows(a, 0x20_0000_0000_0000 * s, s);
        lemma_round_whole(0x20_0000_0000_0000, s);
        lemma_round_grows(0x10_0000_0000_0000 * t, b, t);
        lemma_round_whole(0x10_0000_0000_0000, t);
        assert(x * s <= 0x20_0000_0000_0000 * s) by (nonlinear_arith)
            requires
                x <= 0x20_0000_0000_0000,
        ;
        assert(0x10_0000_0000_0000 * t <= y * t) by (nonlinear_arith)
            requires
                0x10_0000_0000_0000 <= y,
        ;
    }
}

/// A size is not shown as more than a unit that it does not reach, nor as less than one that
/// it does.
proof fn lemma_shown_at_unit(size: nat, unit: nat)
    requires
        unit == KB || unit == MB || unit == GB,
    ensures
        size <= unit ==> shown_unit(size) <= unit && (shown_hundredths(size) * shown_unit(size)
            <= 100 * unit),
        size >= unit ==> shown_hundredths(size) * shown_unit(size) >= 100 * unit,
{
    let u = shown_unit(size);
    let whole = nearest_double(unit);
    assert(double_step(unit) == 1);
    lemma_round_whole(unit, 1);
    assert(whole == unit);
    if size <= unit {
        let ratio: nat = unit / u;
        assert(unit % u == 0) by {
            if u == 1 {
                assert(unit % 1 == 0);
            } else if u == 1024 {
                assert(unit % 1024 == 0);
            } else if u == 1048576 {
                assert(unit % 1048576 == 0);
            } else {
                assert(unit % 1073741824 == 0);
            }
        }
        assert((100 * ratio) * u == 100 * unit) by (nonlinear_arith)
            requires
                u > 0,
                ratio == unit / u,
                unit % u == 0,
        ;
        lemma_nearest_double_grows(size, unit);
        lemma_round_grows(nearest_double(size) * 100, (100 * ratio) * u, u);
        lemma_round_whole(100 * ratio, u);
        let h = shown_hundredths(size);
        assert(h * u <= (100 * ratio) * u) by (nonlinear_arith)
            requires
                h <= 100 * ratio,
        ;
    }
    if size >= unit {
        let first: nat = 100;
        lemma_nearest_double_grows(u, size);
        assert(double_step(u) == 1);
        lemma_round_whole(u, 1);
        lemma_round_grows(first * u, nearest_double(size) * 100, u);
        lemma_round_whole(first, u);
        let h = shown_hundredths(size);
        assert(h * u >= first * u) by (nonlinear_arith)
            requires
                h >= first,
        ;
    }
}

/// A larger size is never shown as a smaller one, whatever units the two are shown in: the
/// hundredths that are shown, times the unit, do not shrink.
pub proof fn larger_sizes_are_not_shown_smaller(a: nat, b: nat)
    requires
        a <= b,
    ensures
        shown_hundredths(a) * shown_unit(a) <= shown_hundredths(b) * shown_unit(b),
{
    let u = shown_unit(a);
    if u == shown_unit(b) {
        lemma_nearest_double_grows(a, b);
        lemma_round_grows(nearest_double(a) * 100, nearest_double(b) * 100, u);
        let x = shown_hundredths(a);
        let y = shown_hundredths(b);
        assert(x * u <= y * u) by (nonlinear_arith)
            requires
                x <= y,
        ;
    } else {
        lemma_shown_at_unit(a, shown_unit(b));
        lemma_shown_at_unit(b, shown_unit(b));
    }
}

/// Sizes below the first unit are shown in full.
pub proof fn small_sizes_are_shown_in_full(size: nat)
    requires
        size < KB,
    ensures
        shown_unit(size) == 1,
        shown_hundredths(size) == 100 * size,
{
    shown_size_is_nearest(size);
    lemma_round_whole(100 * size, 1);
}

} // verus!
