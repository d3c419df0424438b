//! Text: integers and spans of time as they are written in statements.
use crate::duration::Duration;
use vstd::prelude::*;

verus! {

/// The character of a decimal digit.
pub open spec fn digit(d: nat) -> char {
    ('0' as nat + d) as char
}

/// An integer in decimal.
pub open spec fn decimal(x: nat) -> Seq<char>
    decreases x,
{
    if x < 10 {
        seq![digit(x)]
    } else {
        decimal(x / 10).push(digit(x % 10))
    }
}

/// Appends one digit.
fn push_digit(out: &mut String, d: u64)
    requires
        d < 10,
    ensures
        final(out)@ == old(out)@.push(digit(d as nat)),
{
    let text: &str = match d {
        0 => "0",
        1 => "1",
        2 => "2",
        3 => "3",
        4 => "4",
        5 => "5",
        6 => "6",
        7 => "7",
        8 => "8",
        _ => "9",
    };
    proof {
        reveal_strlit("0");
        reveal_strlit("1");
        reveal_strlit("2");
        reveal_strlit("3");
        reveal_strlit("4");
        reveal_strlit("5");
        reveal_strlit("6");
        reveal_strlit("7");
        reveal_strlit("8");
        reveal_strlit("9");
        assert(text@ =~= seq![digit(d as nat)]);
    }
    out.append(text);
    assert(out@ =~= old(out)@.push(digit(d as nat)));
}

/// Appends an integer in decimal.
pub fn push_decimal(out: &mut String, x: u64)
    ensures
        final(out)@ == old(out)@ + decimal(x as nat),
    decreases x,
{
    if x >= 10 {
        push_decimal(out, x / 10);
    }
    push_digit(out, x % 10);
    assert(out@ =~= old(out)@ + decimal(x as nat));
}

/// A number with its unit, or nothing where there are none of it.
pub open spec fn counted(n: nat, unit: Seq<char>) -> Seq<char> {
    if n == 0 {
        Seq::empty()
    } else {
        decimal(n) + unit
    }
}

/// Numbers of units of falling size that make up `n`, each with its name, and
/// what is left with the name of the smallest.
pub open spec fn broken_down(n: nat, sizes: Seq<(nat, Seq<char>)>, smallest: Seq<char>) -> Seq<char>
    decreases sizes.len(),
{
    if sizes.len() == 0 {
        counted(n, smallest)
    } else {
        counted(n / sizes[0].0, sizes[0].1) + broken_down(
            n % sizes[0].0,
            sizes.drop_first(),
            smallest,
        )
    }
}

/// The units above the second, in seconds: years of 365 days, weeks, days,
/// hours and minutes.
pub open spec fn units_of_seconds() -> Seq<(nat, Seq<char>)> {
    seq![
        (31_536_000, "y"@),
        (604_800, "w"@),
        (86_400, "d"@),
        (3_600, "h"@),
        (60, "m"@),
    ]
}

/// The units between the second and the nanosecond, in nanoseconds:
/// milliseconds and microseconds.
pub open spec fn units_of_nanoseconds() -> Seq<(nat, Seq<char>)> {
    seq![(1_000_000, "ms"@), (1_000, "\u{b5}s"@)]
}

/// A span of time: whole numbers of each unit that it has any of.
pub open spec fn span(d: Duration) -> Seq<char> {
    if d.total_nanos() == 0 {
        "0ns"@
    } else {
        broken_down(d.secs() as nat, units_of_seconds(), "s"@) + broken_down(
            d.nanos() as nat,
            units_of_nanoseconds(),
            "ns"@,
        )
    }
}

/// Appends a number with its unit.
fn push_counted(out: &mut String, n: u64, unit: &str)
    ensures
        final(out)@ == old(out)@ + counted(n as nat, unit@),
{
    if n != 0 {
        push_decimal(out, n);
        out.append(unit);
    }
    assert(out@ =~= old(out)@ + counted(n as nat, unit@));
}

/// Units as they are written in contracts.
pub open spec fn named(sizes: Seq<(u64, &'static str)>) -> Seq<(nat, Seq<char>)> {
    Seq::new(sizes.len(), |i: int| (sizes[i].0 as nat, sizes[i].1@))
}

/// Appends a number broken down by units of falling size.
fn push_broken_down(out: &mut String, n: u64, sizes: &[(u64, &'static str)], smallest: &str)
    requires
        forall|i: int| 0 <= i < sizes@.len() ==> (#[trigger] sizes@[i]).0 > 0,
    ensures
        final(out)@ == old(out)@ + broken_down(n as nat, named(sizes@), smallest@),
{
    let ghost start = out@;
    let ghost units = named(sizes@);
    let mut rest: u64 = n;
    let mut i: usize = 0;
    assert(units.subrange(0, units.len() as int) =~= units);
    while i < sizes.len()
        invariant
            i <= sizes@.len(),
            units == named(sizes@),
            forall|j: int| 0 <= j < sizes@.len() ==> (#[trigger] sizes@[j]).0 > 0,
            start + broken_down(n as nat, units, smallest@) == out@ + broken_down(
                rest as nat,
                units.subrange(i as int, units.len() as int),
                smallest@,
            ),
        decreases sizes@.len() - i,
    {
        let (size, unit): (u64, &'static str) = sizes[i];
        let ghost before = out@;
        let ghost tail = units.subrange(i as int, units.len() as int);
        push_counted(out, rest / size, unit);
        proof {
            let next = units.subrange(i + 1, units.len() as int);
            assert(tail.drop_first() =~= next);
            assert(tail[0] == (size as nat, unit@));
            let a = counted((rest / size) as nat, unit@);
            let b = broken_down((rest % size) as nat, next, smallest@);
            assert(before + (a + b) =~= (before + a) + b);
        }
        rest = rest % size;
        i = i + 1;
    }
    assert(units.subrange(i as int, units.len() as int) =~= Seq::empty());
    push_counted(out, rest, smallest);
}

/// Appends a span of time.
pub fn push_span(out: &mut String, d: &Duration)
    ensures
        final(out)@ == old(out)@ + span(*d),
{
    if d.is_zero() {
        out.append("0ns");
        return;
    }
    let above: [(u64, &'static str); 5] = [
        (31_536_000, "y"),
        (604_800, "w"),
        (86_400, "d"),
        (3_600, "h"),
        (60, "m"),
    ];
    let below: [(u64, &'static str); 2] = [(1_000_000, "ms"), (1_000, "\u{b5}s")];
    assert(named(above@) =~= units_of_seconds());
    assert(named(below@) =~= units_of_nanoseconds());
    push_broken_down(out, d.as_secs(), above.as_slice(), "s");
    push_broken_down(out, d.subsec_nanos() as u64, below.as_slice(), "ns");
    assert(out@ =~= old(out)@ + span(*d));
}

} // verus!
