//! What the log says of a transfer's progress.

use vstd::prelude::*;
use vstd::string::StringExecFns;
use crate::decimal::{decimal, push_decimal};
use crate::logger::{nearest_double, round_half_even, two_decimals};

verus! {

/// The characters between the ends of a full bar.
pub const BAR_WIDTH: usize = 50;

/// A character, `count` times.
pub open spec fn repeated(c: char, count: nat) -> Seq<char> {
    Seq::new(count, |i: int| c)
}

/// A bar of which `filled` characters are full, or all of them, where it has no more; behind
/// them stands the tip, unless the bar is full, and the rest is blank.
pub open spec fn bar_text(filled: nat) -> Seq<char> {
    if filled < BAR_WIDTH {
        seq!['['] + repeated('=', filled) + seq!['>'] + repeated(
            ' ',
            (BAR_WIDTH - filled - 1) as nat,
        ) + seq![']']
    } else {
        seq!['['] + repeated('=', BAR_WIDTH as nat) + seq![']']
    }
}

/// How far a transfer is.
#[derive(Clone, Debug)]
pub struct Measures {
    /// The characters of the bar that are full; a bar has no more than [`BAR_WIDTH`].
    pub filled_width: usize,
    /// The per cent that arrived, as text.
    pub percent: String,
    /// Whether everything arrived.
    pub complete: bool,
    /// The bytes that arrive in a second.
    pub speed: u64,
    /// The seconds that are left.
    pub eta_secs: u64,
}

/// The line that is written to the log: the bytes that arrived and all bytes, the bar, the
/// per cent, a mark where everything arrived, the speed, and the time that is left.
pub open spec fn progress_text(
    current: Seq<char>,
    total: Seq<char>,
    speed: Seq<char>,
    measures: Measures,
) -> Seq<char> {
    let mark = if measures.complete {
        "✓"@
    } else {
        Seq::empty()
    };
    current + " / "@ + total + " "@ + bar_text(measures.filled_width as nat) + " "@
        + measures.percent@ + "% "@ + mark + " "@ + speed + "/s "@ + decimal(
        measures.eta_secs as nat,
    ) + "s"@
}

/// The largest binary unit that a number of bytes reaches, and its name.
pub open spec fn binary_unit(bytes: nat) -> (nat, Seq<char>) {
    if bytes >= 0x1000_0000_0000_0000 {
        (0x1000_0000_0000_0000, " EiB"@)
    } else if bytes >= 0x4_0000_0000_0000 {
        (0x4_0000_0000_0000, " PiB"@)
    } else if bytes >= 0x100_0000_0000 {
        (0x100_0000_0000, " TiB"@)
    } else if bytes >= 0x4000_0000 {
        (0x4000_0000, " GiB"@)
    } else if bytes >= 0x10_0000 {
        (0x10_0000, " MiB"@)
    } else {
        (0x400, " KiB"@)
    }
}

/// How a number of bytes is shown: as it is below 1024, and else in the largest binary unit that
/// the double-precision number nearest to it reaches, rounded to two digits behind the point.
pub open spec fn human_bytes_text(bytes: nat) -> Seq<char> {
    if bytes < 1024 {
        decimal(bytes) + " B"@
    } else {
        let double = nearest_double(bytes);
        let (unit, name) = binary_unit(double);
        two_decimals(round_half_even(double * 100, unit)) + name
    }
}

/// Calls `indicatif::HumanBytes` and its `Display`. Claimed of it: the text is the one that
/// [`human_bytes_text`] states. The number is turned into a double-precision one, divided by
/// 1024 until it is below that, which is exact, and written with two digits behind the point.
#[verifier::external_body]
pub(crate) fn human_bytes(bytes: u64) -> (r: String)
    ensures
        r@ == human_bytes_text(bytes as nat),
{
    indicatif::HumanBytes(bytes).to_string()
}

/// Appends a character `count` times.
fn push_repeated(out: &mut String, c: char, count: usize)
    ensures
        final(out)@ == old(out)@ + repeated(c, count as nat),
{
    let mut i: usize = 0;
    assert(out@ =~= old(out)@ + repeated(c, 0));
    while i < count
        invariant
            i <= count,
            out@ == old(out)@ + repeated(c, i as nat),
        decreases count - i,
    {
        out.push(c);
        i += 1;
        assert(out@ =~= old(out)@ + repeated(c, i as nat));
    }
}

/// Draws a bar of which `filled` characters are full.
pub fn draw_bar(filled: usize) -> (r: String)
    ensures
        r@ == bar_text(filled as nat),
{
    let mut bar = String::new();
    bar.push('[');
    if filled < BAR_WIDTH {
        push_repeated(&mut bar, '=', filled);
        bar.push('>');
        push_repeated(&mut bar, ' ', BAR_WIDTH - filled - 1);
    } else {
        push_repeated(&mut bar, '=', BAR_WIDTH);
    }
    bar.push(']');
    assert(bar@ =~= bar_text(filled as nat));
    bar
}

/// Writes the line for the log, from the numbers of bytes as they are shown.
pub fn progress_line(current: &str, total: &str, speed: &str, measures: &Measures) -> (r: String)
    ensures
        r@ == progress_text(current@, total@, speed@, *measures),
{
    let mut line = current.to_owned();
    line.append(" / ");
    line.append(total);
    line.append(" ");
    line.append(draw_bar(measures.filled_width).as_str());
    line.append(" ");
    line.append(measures.percent.as_str());
    line.append("% ");
    if measures.complete {
        line.append("✓");
    }
    line.append(" ");
    line.append(speed);
    line.append("/s ");
    push_decimal(&mut line, measures.eta_secs);
    line.append("s");
    assert(line@ =~= progress_text(current@, total@, speed@, *measures));
    line
}

/// Formats the progress for printing to the log file.
pub fn format_progress(current: u64, total: u64, measures: &Measures) -> (r: String)
    ensures
        r@ == progress_text(
            human_bytes_text(current as nat),
            human_bytes_text(total as nat),
            human_bytes_text(measures.speed as nat),
            *measures,
        ),
{
    let current_human = human_bytes(current);
    let total_human = human_bytes(total);
    let speed_human = human_bytes(measures.speed);
    progress_line(
        current_human.as_str(),
        total_human.as_str(),
        speed_human.as_str(),
        measures,
    )
}

/// Every bar is as wide as any other.
pub proof fn bars_have_one_width(filled: nat)
    ensures
        bar_text(filled).len() == BAR_WIDTH + 2,
{
}

} // verus!
