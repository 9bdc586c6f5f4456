//! The metric value type and the textual line format.
//!
//! A drained metric is rendered as one line, `<name>:<value>:<tag>\n`,
//! where the tag is `c` for a counter and `g` for a gauge. The spec
//! functions here give the exact character sequence of such a line.

use vstd::prelude::*;
use vstd::string::StringExecFns;

verus! {

/// A single observed metric value: a monotonically-intended counter, an
/// instantaneous signed gauge, or the `Cleared` sentinel that marks a key
/// as having no pending unexported value. `Cleared` is only a reset
/// marker and is never rendered.
#[derive(Debug, Clone, Copy, PartialEq, Eq, Hash, Structural)]
pub enum MetricValue {
    Counter(u64),
    Gauge(i64),
    Cleared,
}

/// The decimal digit character for `d` (0 through 9).
pub open spec fn digit_char(d: int) -> char {
    if d == 0 {
        '0'
    } else if d == 1 {
        '1'
    } else if d == 2 {
        '2'
    } else if d == 3 {
        '3'
    } else if d == 4 {
        '4'
    } else if d == 5 {
        '5'
    } else if d == 6 {
        '6'
    } else if d == 7 {
        '7'
    } else if d == 8 {
        '8'
    } else {
        '9'
    }
}

/// The decimal representation of a natural number, most significant
/// digit first, with no leading zeros (`0` itself is the single digit).
pub open spec fn dec_nat(n: nat) -> Seq<char>
    decreases n,
{
    if n < 10 {
        seq![digit_char(n as int)]
    } else {
        dec_nat(n / 10) + seq![digit_char((n % 10) as int)]
    }
}

/// The decimal representation of an integer: a leading `-` for negative
/// values, then the digits of the magnitude.
pub open spec fn dec_int(v: int) -> Seq<char> {
    if v < 0 {
        seq!['-'] + dec_nat((-v) as nat)
    } else {
        dec_nat(v as nat)
    }
}

/// The exact text line for one emitted metric: the name, the decimal
/// payload and the type tag, colon-separated and newline-terminated.
/// `Cleared` is never emitted and renders as nothing.
pub open spec fn line_of(name: Seq<char>, v: MetricValue) -> Seq<char> {
    match v {
        MetricValue::Counter(n) => name + seq![':'] + dec_nat(n as nat) + seq![':', 'c', '\n'],
        MetricValue::Gauge(n) => name + seq![':'] + dec_int(n as int) + seq![':', 'g', '\n'],
        MetricValue::Cleared => Seq::empty(),
    }
}

/// Appends the single decimal digit `d` to `out`.
fn push_digit(out: &mut String, d: u64)
    requires
        d < 10,
    ensures
        final(out)@ == old(out)@ + seq![digit_char(d as int)],
{
    let s: &str = match d {
        0 => "0",
        1 => "1",
        2 => "2",
        3 => "3",
        4 => "4",
        5 => "5",
        6 => "6",
        7 => "7",
        8 => "8",
        _ => "9",
    };
    proof {
        reveal_strlit("0");
        reveal_strlit("1");
        reveal_strlit("2");
        reveal_strlit("3");
        reveal_strlit("4");
        reveal_strlit("5");
        reveal_strlit("6");
        reveal_strlit("7");
        reveal_strlit("8");
        reveal_strlit("9");
        assert(s@ =~= seq![digit_char(d as int)]);
    }
    out.append(s);
}

/// Appends the decimal digits of `n` to `out`.
fn push_dec_u64(out: &mut String, n: u64)
    ensures
        final(out)@ == old(out)@ + dec_nat(n as nat),
    decreases n,
{
    if n >= 10 {
        push_dec_u64(out, n / 10);
    }
    push_digit(out, n % 10);
    proof {
        if n < 10 {
            assert(n % 10 == n);
        }
        assert(out@ =~= old(out)@ + dec_nat(n as nat));
    }
}

/// Appends the decimal representation of `n`, sign included, to `out`.
fn push_dec_i64(out: &mut String, n: i64)
    ensures
        final(out)@ == old(out)@ + dec_int(n as int),
{
    if n < 0 {
        let s: &str = "-";
        proof {
            reveal_strlit("-");
            assert(s@ =~= seq!['-']);
        }
        out.append(s);
        let wide: i128 = -(n as i128);
        let magnitude: u64 = wide as u64;
        assert(magnitude as int == -(n as int));
        push_dec_u64(out, magnitude);
        assert(out@ =~= old(out)@ + dec_int(n as int));
    } else {
        push_dec_u64(out, n as u64);
    }
}

/// Renders the line for one emitted metric. `Cleared` marks nothing
/// pending, so it cannot be rendered and is excluded by the caller.
pub fn metric_line(name: &str, value: MetricValue) -> (line: String)
    requires
        !(value is Cleared),
    ensures
        line@ == line_of(name@, value),
{
    let mut line = String::new();
    line.append(name);
    let colon: &str = ":";
    proof {
        reveal_strlit(":");
        assert(colon@ =~= seq![':']);
    }
    line.append(colon);
    match value {
        MetricValue::Counter(n) => {
            push_dec_u64(&mut line, n);
            let tail: &str = ":c\n";
            proof {
                reveal_strlit(":c\n");
                assert(tail@ =~= seq![':', 'c', '\n']);
            }
            line.append(tail);
            proof {
                assert(line@ =~= line_of(name@, value));
            }
            line
        },
        MetricValue::Gauge(n) => {
            push_dec_i64(&mut line, n);
            let tail: &str = ":g\n";
            proof {
                reveal_strlit(":g\n");
                assert(tail@ =~= seq![':', 'g', '\n']);
            }
            line.append(tail);
            proof {
                assert(line@ =~= line_of(name@, value));
            }
            line
        },
        MetricValue::Cleared => unreached(),
    }
}

} // verus!
