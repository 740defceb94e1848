use vstd::prelude::*;
use vstd::string::StringExecFns;
use crate::stats::TimingStats;

verus! {

/// The character of a decimal digit.
pub open spec fn digit_char(d: nat) -> char {
    if d == 0 {
        '0'
    } else if d == 1 {
        '1'
    } else if d == 2 {
        '2'
    } else if d == 3 {
        '3'
    } else if d == 4 {
        '4'
    } else if d == 5 {
        '5'
    } else if d == 6 {
        '6'
    } else if d == 7 {
        '7'
    } else if d == 8 {
        '8'
    } else {
        '9'
    }
}

/// The decimal digits of `n`, most significant first, without leading zeros.
pub open spec fn decimal(n: nat) -> Seq<char>
    decreases n,
{
    if n < 10 {
        seq![digit_char(n)]
    } else {
        decimal(n / 10) + seq![digit_char(n % 10)]
    }
}

/// The suffix that follows every figure.
pub open spec fn unit_text(use_nanos: bool) -> Seq<char> {
    if use_nanos {
        " ns\n"@
    } else {
        " μs\n"@
    }
}

/// One report: the name on its own line, then the median, average, minimum
/// and maximum, one labelled line each.
pub open spec fn block_text(name: Seq<char>, s: TimingStats, use_nanos: bool) -> Seq<char> {
    name + "\n"@
        + "Median: "@ + decimal(s.median as nat) + unit_text(use_nanos)
        + "Average: "@ + decimal(s.average as nat) + unit_text(use_nanos)
        + "Min: "@ + decimal(s.min as nat) + unit_text(use_nanos)
        + "Max: "@ + decimal(s.max as nat) + unit_text(use_nanos)
}

/// Two reports separated by one blank line.
pub open spec fn comparison_text(
    first: Seq<char>,
    a: TimingStats,
    second: Seq<char>,
    b: TimingStats,
    use_nanos: bool,
) -> Seq<char> {
    block_text(first, a, use_nanos) + "\n"@ + block_text(second, b, use_nanos)
}

fn digit_str(d: u128) -> (r: &'static str)
    requires
        d < 10,
    ensures
        r@ == seq![digit_char(d as nat)],
{
    proof {
        reveal_strlit("0");
        reveal_strlit("1");
        reveal_strlit("2");
        reveal_strlit("3");
        reveal_strlit("4");
        reveal_strlit("5");
        reveal_strlit("6");
        reveal_strlit("7");
        reveal_strlit("8");
        reveal_strlit("9");
    }
    if d == 0 {
        "0"
    } else if d == 1 {
        "1"
    } else if d == 2 {
        "2"
    } else if d == 3 {
        "3"
    } else if d == 4 {
        "4"
    } else if d == 5 {
        "5"
    } else if d == 6 {
        "6"
    } else if d == 7 {
        "7"
    } else if d == 8 {
        "8"
    } else {
        "9"
    }
}

/// Appends the decimal digits of `n`.
pub fn push_decimal(out: &mut String, n: u128)
    ensures
        final(out)@ == old(out)@ + decimal(n as nat),
    decreases n,
{
    if n >= 10 {
        push_decimal(out, n / 10);
    }
    out.append(digit_str(n % 10));
    assert(final(out)@ =~= old(out)@ + decimal(n as nat));
}

fn push_line(out: &mut String, label: &str, value: u128, use_nanos: bool)
    ensures
        final(out)@ == old(out)@ + label@ + decimal(value as nat) + unit_text(use_nanos),
{
    out.append(label);
    push_decimal(out, value);
    if use_nanos {
        out.append(" ns\n");
    } else {
        out.append(" μs\n");
    }
    assert(final(out)@ =~= old(out)@ + label@ + decimal(value as nat) + unit_text(use_nanos));
}

/// Appends the report of one candidate.
pub fn push_block(out: &mut String, name: &str, stats: &TimingStats, use_nanos: bool)
    ensures
        final(out)@ == old(out)@ + block_text(name@, *stats, use_nanos),
{
    out.append(name);
    out.append("\n");
    push_line(out, "Median: ", stats.median, use_nanos);
    push_line(out, "Average: ", stats.average, use_nanos);
    push_line(out, "Min: ", stats.min, use_nanos);
    push_line(out, "Max: ", stats.max, use_nanos);
    assert(final(out)@ =~= old(out)@ + block_text(name@, *stats, use_nanos));
}

/// The full output for two candidates, in the order given.
pub fn render_comparison(
    first: &str,
    a: &TimingStats,
    second: &str,
    b: &TimingStats,
    use_nanos: bool,
) -> (r: String)
    ensures
        r@ == comparison_text(first@, *a, second@, *b, use_nanos),
{
    let mut out = String::new();
    push_block(&mut out, first, a, use_nanos);
    out.append("\n");
    push_block(&mut out, second, b, use_nanos);
    assert(out@ =~= comparison_text(first@, *a, second@, *b, use_nanos));
    out
}

} // verus!
