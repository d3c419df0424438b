//! What written text says when it is read.
//!
//! The laws here read clauses, numbers, spans and quoted texts character by
//! character, from the front, and get back what they were written from.
use crate::catalog;
use crate::duration::Duration;
use crate::error::Error;
use crate::sql;
use crate::sql::{Expr, Literal, PermissionKind, RateLimit};
use crate::text;
use vstd::prelude::*;

verus! {

/// A character is a decimal digit.
pub open spec fn is_digit(c: char) -> bool {
    48 <= c as int <= 57
}

/// The number that digits are.
pub open spec fn number(s: Seq<char>) -> int
    decreases s.len(),
{
    if s.len() == 0 {
        0
    } else {
        number(s.drop_last()) * 10 + (s.last() as int - 48)
    }
}

/// A number is written in digits that are that number, without a zero in front.
pub proof fn lemma_decimal_reads_back(x: nat)
    ensures
        number(text::decimal(x)) == x,
        text::decimal(x).len() > 0,
        forall|i: int| 0 <= i < text::decimal(x).len() ==> is_digit(#[trigger] text::decimal(x)[i]),
        x > 0 ==> text::decimal(x)[0] as int != 48,
        x == 0 ==> text::decimal(x).len() == 1,
    decreases x,
{
    let s = text::decimal(x);
    if x < 10 {
        assert(s.drop_last() =~= Seq::empty());
        assert(number(s.drop_last()) == 0);
    } else {
        lemma_decimal_reads_back(x / 10);
        assert(s.drop_last() =~= text::decimal(x / 10));
        assert(s[0] == text::decimal(x / 10)[0]);
        assert forall|i: int| 0 <= i < s.len() implies is_digit(#[trigger] s[i]) by {
            if i < s.len() - 1 {
                assert(s[i] == text::decimal(x / 10)[i]);
            }
        }
    }
}

/// The nanoseconds in a unit of a part of a second, by the first letter of its
/// name: a millisecond, a microsecond or a nanosecond.
pub open spec fn small_unit(c: char) -> int {
    if c == 'm' {
        1_000_000
    } else if c == '\u{b5}' {
        1_000
    } else if c == 'n' {
        1
    } else {
        0
    }
}

/// The nanoseconds in a unit from the second on, by its letter.
pub open spec fn large_unit(c: char) -> int {
    if c == 'y' {
        31_536_000_000_000_000
    } else if c == 'w' {
        604_800_000_000_000
    } else if c == 'd' {
        86_400_000_000_000
    } else if c == 'h' {
        3_600_000_000_000
    } else if c == 'm' {
        60_000_000_000
    } else if c == 's' {
        1_000_000_000
    } else {
        0
    }
}

/// The nanoseconds that a written span comes to: digits make up a number, and
/// the name of a unit adds that many of it. `n` and `sum` are what was read
/// before.
pub open spec fn span_read(s: Seq<char>, n: int, sum: int) -> int
    decreases s.len(),
{
    if s.len() == 0 {
        sum
    } else if is_digit(s[0]) {
        span_read(s.drop_first(), n * 10 + (s[0] as int - 48), sum)
    } else if s.len() >= 2 && s[1] == 's' {
        span_read(
            s.drop_first().drop_first(),
            0,
            sum + n * small_unit(s[0]),
        )
    } else {
        span_read(
            s.drop_first(),
            0,
            sum + n * large_unit(s[0]),
        )
    }
}

/// Reading digits in front of something is reading the rest with the number.
proof fn lemma_digits_are_read(x: nat, rest: Seq<char>, sum: int)
    ensures
        span_read(text::decimal(x) + rest, 0, sum) == span_read(rest, x as int, sum),
    decreases x,
{
    let s = text::decimal(x);
    let d = text::digit(x % 10);
    let tail = seq![d] + rest;
    assert(tail.drop_first() =~= rest);
    if x < 10 {
        assert(s + rest =~= tail);
    } else {
        lemma_digits_are_read(x / 10, tail, sum);
        assert(s + rest =~= text::decimal(x / 10) + tail);
    }
}

/// The nanoseconds in a unit, by its name.
spec fn unit_nanos(unit: Seq<char>) -> int {
    if unit.len() == 1 {
        large_unit(unit[0])
    } else {
        small_unit(unit[0])
    }
}

/// A name of a unit.
spec fn is_unit(unit: Seq<char>) -> bool {
    ||| unit == "y"@
    ||| unit == "w"@
    ||| unit == "d"@
    ||| unit == "h"@
    ||| unit == "m"@
    ||| unit == "s"@
    ||| unit == "ms"@
    ||| unit == "\u{b5}s"@
    ||| unit == "ns"@
}

/// Text that goes on with a digit, or not at all.
spec fn begins_anew(s: Seq<char>) -> bool {
    s.len() == 0 || is_digit(s[0])
}

proof fn lemma_unit_is_read(unit: Seq<char>, rest: Seq<char>, n: int, sum: int)
    requires
        is_unit(unit),
        begins_anew(rest),
    ensures
        span_read(unit + rest, n, sum) == span_read(rest, 0, sum + n * unit_nanos(unit)),
{
    reveal_strlit("y");
    reveal_strlit("w");
    reveal_strlit("d");
    reveal_strlit("h");
    reveal_strlit("m");
    reveal_strlit("s");
    reveal_strlit("ms");
    reveal_strlit("\u{b5}s");
    reveal_strlit("ns");
    let s = unit + rest;
    assert("y"@[0] == 'y' && "w"@[0] == 'w' && "d"@[0] == 'd' && "h"@[0] == 'h');
    assert("m"@[0] == 'm' && "s"@[0] == 's' && "ms"@[0] == 'm' && "ns"@[0] == 'n');
    assert("\u{b5}s"@[0] == '\u{b5}');
    assert(s[0] == unit[0]);
    if unit.len() == 1 {
        assert(s.drop_first() =~= rest);
        if rest.len() > 0 {
            assert(s[1] == rest[0]);
        }
    } else {
        assert(s[1] == unit[1]);
        assert(s.drop_first().drop_first() =~= rest);
    }
}

proof fn lemma_counted_is_read(n: nat, unit: Seq<char>, rest: Seq<char>, sum: int)
    requires
        is_unit(unit),
        begins_anew(rest),
    ensures
        span_read(text::counted(n, unit) + rest, 0, sum) == span_read(
            rest,
            0,
            sum + n * unit_nanos(unit),
        ),
        begins_anew(text::counted(n, unit) + rest),
{
    if n == 0 {
        assert(text::counted(n, unit) + rest =~= rest);
        assert(0 * unit_nanos(unit) == 0);
    } else {
        assert(text::counted(n, unit) + rest =~= text::decimal(n) + (unit + rest));
        lemma_digits_are_read(n, unit + rest, sum);
        lemma_unit_is_read(unit, rest, n as int, sum);
        lemma_decimal_reads_back(n);
        assert((text::counted(n, unit) + rest)[0] == text::decimal(n)[0]);
    }
}

/// Units that are whole numbers of the smallest one.
spec fn are_units(sizes: Seq<(nat, Seq<char>)>, smallest: Seq<char>) -> bool {
    &&& is_unit(smallest)
    &&& forall|i: int|
        0 <= i < sizes.len() ==> is_unit((#[trigger] sizes[i]).1) && sizes[i].0 > 0
            && unit_nanos(sizes[i].1) == sizes[i].0 * unit_nanos(smallest)
}

proof fn lemma_broken_down_is_read(
    n: nat,
    sizes: Seq<(nat, Seq<char>)>,
    smallest: Seq<char>,
    rest: Seq<char>,
    sum: int,
)
    requires
        are_units(sizes, smallest),
        begins_anew(rest),
    ensures
        span_read(text::broken_down(n, sizes, smallest) + rest, 0, sum) == span_read(
            rest,
            0,
            sum + n * unit_nanos(smallest),
        ),
        begins_anew(text::broken_down(n, sizes, smallest) + rest),
    decreases sizes.len(),
{
    if sizes.len() == 0 {
        lemma_counted_is_read(n, smallest, rest, sum);
    } else {
        let size = sizes[0].0;
        let unit = sizes[0].1;
        let fewer = sizes.drop_first();
        assert forall|i: int| 0 <= i < fewer.len() implies is_unit((#[trigger] fewer[i]).1)
            && fewer[i].0 > 0 && unit_nanos(fewer[i].1) == fewer[i].0 * unit_nanos(smallest) by {
            assert(fewer[i] == sizes[i + 1]);
        }
        let q = n / size;
        let r = n % size;
        let tail = text::broken_down(r, fewer, smallest) + rest;
        let next = sum + q * unit_nanos(unit);
        lemma_broken_down_is_read(r, fewer, smallest, rest, next);
        lemma_counted_is_read(q, unit, tail, sum);
        assert(text::broken_down(n, sizes, smallest) + rest =~= text::counted(q, unit) + tail);
        vstd::arithmetic::div_mod::lemma_fundamental_div_mod(n as int, size as int);
        let u = unit_nanos(smallest);
        assert(q * (size * u) + r * u == n * u) by (nonlinear_arith)
            requires
                n == size * q + r,
        ;
    }
}

/// A span that is written reads back as itself: the numbers of its units come to
/// all of its nanoseconds.
pub proof fn lemma_span_reads_back(d: Duration)
    ensures
        span_read(text::span(d), 0, 0) == d.secs() * 1_000_000_000 + d.nanos(),
        text::span(d).len() > 0,
        is_digit(text::span(d)[0]),
        d.secs() == 0 && d.nanos() == 0 ==> text::span(d) == seq!['0', 'n', 's'],
{
    let none = Seq::<char>::empty();
    if d.total_nanos() == 0 {
        let s = "0ns"@;
        reveal_strlit("0ns");
        assert(s[0] == '0' && s[1] == 'n' && s[2] == 's');
        reveal_with_fuel(span_read, 3);
        assert(s.drop_first().drop_first().drop_first() =~= none);
        assert(s.drop_first()[0] == 'n' && s.drop_first()[1] == 's');
    } else {
        lemma_units();
        let seconds = text::broken_down(d.secs() as nat, text::units_of_seconds(), "s"@);
        let nanos = text::broken_down(d.nanos() as nat, text::units_of_nanoseconds(), "ns"@);
        let sum = d.secs() * 1_000_000_000;
        lemma_broken_down_is_read(
            d.nanos() as nat,
            text::units_of_nanoseconds(),
            "ns"@,
            none,
            sum,
        );
        assert(nanos + none =~= nanos);
        lemma_broken_down_is_read(d.secs() as nat, text::units_of_seconds(), "s"@, nanos, 0);
    }
}

proof fn lemma_units()
    ensures
        are_units(text::units_of_seconds(), "s"@),
        are_units(text::units_of_nanoseconds(), "ns"@),
        unit_nanos("s"@) == 1_000_000_000,
        unit_nanos("ns"@) == 1,
{
    reveal_strlit("y");
    reveal_strlit("w");
    reveal_strlit("d");
    reveal_strlit("h");
    reveal_strlit("m");
    reveal_strlit("s");
    reveal_strlit("ms");
    reveal_strlit("\u{b5}s");
    reveal_strlit("ns");
    assert("y"@[0] == 'y' && "w"@[0] == 'w' && "d"@[0] == 'd' && "h"@[0] == 'h');
    assert("m"@[0] == 'm' && "s"@[0] == 's' && "ms"@[0] == 'm' && "ns"@[0] == 'n');
    assert("\u{b5}s"@[0] == '\u{b5}');
}

/// The nanoseconds in the next larger unit, by the first letter of the name of
/// a unit of a part of a second.
pub open spec fn above_small(c: char) -> int {
    if c == 'm' {
        1_000_000_000
    } else if c == '\u{b5}' {
        1_000_000
    } else if c == 'n' {
        1_000
    } else {
        0
    }
}

/// The nanoseconds in the next larger unit, by the letter of a unit from the
/// second on. Above the year there is none, and any number of years will do.
pub open spec fn above_large(c: char) -> int {
    if c == 'y' {
        18_446_744_073_709_551_616_000_000_000
    } else if c == 'w' {
        31_536_000_000_000_000
    } else if c == 'd' {
        604_800_000_000_000
    } else if c == 'h' {
        86_400_000_000_000
    } else if c == 'm' {
        3_600_000_000_000
    } else if c == 's' {
        60_000_000_000
    } else {
        0
    }
}

/// A span is written in the one proper way: the units fall in size, none stands
/// with the number zero or with zeros before its number, and there are never as
/// many of one as make up the next larger one. `n` is the number and `last` the
/// unit that were read before.
pub open spec fn span_fits(s: Seq<char>, n: int, last: int) -> bool
    decreases s.len(),
{
    if s.len() == 0 {
        n == 0
    } else if is_digit(s[0]) {
        (n > 0 || s[0] != '0') && span_fits(s.drop_first(), n * 10 + (s[0] as int - 48), last)
    } else if s.len() >= 2 && s[1] == 's' {
        &&& n > 0
        &&& small_unit(s[0]) < last
        &&& n * small_unit(s[0]) < above_small(s[0])
        &&& span_fits(s.drop_first().drop_first(), 0, small_unit(s[0]))
    } else {
        &&& n > 0
        &&& large_unit(s[0]) < last
        &&& n * large_unit(s[0]) < above_large(s[0])
        &&& span_fits(s.drop_first(), 0, large_unit(s[0]))
    }
}

/// What may follow a smaller unit may follow a larger one.
proof fn lemma_fits_behind_larger(s: Seq<char>, n: int, last: int, larger: int)
    requires
        span_fits(s, n, last),
        last <= larger,
    ensures
        span_fits(s, n, larger),
    decreases s.len(),
{
    if s.len() > 0 && is_digit(s[0]) {
        lemma_fits_behind_larger(s.drop_first(), n * 10 + (s[0] as int - 48), last, larger);
    }
}

spec fn above(unit: Seq<char>) -> int {
    if unit.len() == 1 {
        above_large(unit[0])
    } else {
        above_small(unit[0])
    }
}

proof fn lemma_digits_fit(x: nat, rest: Seq<char>, last: int)
    requires
        x > 0,
    ensures
        span_fits(text::decimal(x) + rest, 0, last) == span_fits(rest, x as int, last),
    decreases x,
{
    let s = text::decimal(x);
    let tail = seq![text::digit(x % 10)] + rest;
    assert(tail.drop_first() =~= rest);
    if x < 10 {
        assert(s + rest =~= tail);
    } else {
        lemma_digits_fit(x / 10, tail, last);
        assert(s + rest =~= text::decimal(x / 10) + tail);
    }
}

proof fn lemma_counted_fits(n: nat, unit: Seq<char>, rest: Seq<char>, last: int)
    requires
        is_unit(unit),
        begins_anew(rest),
        unit_nanos(unit) < last,
        n * unit_nanos(unit) < above(unit),
        span_fits(rest, 0, unit_nanos(unit)),
    ensures
        span_fits(text::counted(n, unit) + rest, 0, last),
{
    if n == 0 {
        assert(text::counted(n, unit) + rest =~= rest);
        lemma_fits_behind_larger(rest, 0, unit_nanos(unit), last);
    } else {
        let s = unit + rest;
        assert(text::counted(n, unit) + rest =~= text::decimal(n) + s);
        lemma_digits_fit(n, s, last);
        lemma_unit_letters(unit);
        assert(s[0] == unit[0]);
        if unit.len() == 1 {
            assert(s.drop_first() =~= rest);
            if rest.len() > 0 {
                assert(s[1] == rest[0]);
            }
        } else {
            assert(s[1] == unit[1]);
            assert(s.drop_first().drop_first() =~= rest);
        }
    }
}

proof fn lemma_unit_letters(unit: Seq<char>)
    requires
        is_unit(unit),
    ensures
        unit.len() == 1 || unit.len() == 2 && unit[1] == 's',
        !is_digit(unit[0]),
{
    reveal_strlit("y");
    reveal_strlit("w");
    reveal_strlit("d");
    reveal_strlit("h");
    reveal_strlit("m");
    reveal_strlit("s");
    reveal_strlit("ms");
    reveal_strlit("\u{b5}s");
    reveal_strlit("ns");
    assert("y"@[0] == 'y' && "w"@[0] == 'w' && "d"@[0] == 'd' && "h"@[0] == 'h');
    assert("m"@[0] == 'm' && "s"@[0] == 's' && "ms"@[0] == 'm' && "ns"@[0] == 'n');
    assert("\u{b5}s"@[0] == '\u{b5}');
}

/// Units of which each is followed by the next smaller one.
spec fn are_steps(sizes: Seq<(nat, Seq<char>)>, smallest: Seq<char>) -> bool {
    if sizes.len() == 0 {
        true
    } else {
        &&& above(smallest) == unit_nanos(sizes.last().1)
        &&& unit_nanos(smallest) < unit_nanos(sizes.last().1)
        &&& forall|i: int|
            0 < i < sizes.len() ==> above((#[trigger] sizes[i]).1) == unit_nanos(sizes[i - 1].1)
                && unit_nanos(sizes[i].1) < unit_nanos(sizes[i - 1].1)
    }
}

proof fn lemma_broken_down_fits(
    n: nat,
    sizes: Seq<(nat, Seq<char>)>,
    smallest: Seq<char>,
    rest: Seq<char>,
    last: int,
)
    requires
        are_units(sizes, smallest),
        are_steps(sizes, smallest),
        begins_anew(rest),
        ({
            let first = if sizes.len() == 0 {
                smallest
            } else {
                sizes[0].1
            };
            n * unit_nanos(smallest) < above(first) && unit_nanos(first) < last
        }),
        span_fits(rest, 0, unit_nanos(smallest)),
        unit_nanos(smallest) > 0,
    ensures
        span_fits(text::broken_down(n, sizes, smallest) + rest, 0, last),
    decreases sizes.len(),
{
    if sizes.len() == 0 {
        lemma_counted_fits(n, smallest, rest, last);
    } else {
        let size = sizes[0].0;
        let unit = sizes[0].1;
        let fewer = sizes.drop_first();
        assert forall|i: int| 0 <= i < fewer.len() implies is_unit((#[trigger] fewer[i]).1)
            && fewer[i].0 > 0 && unit_nanos(fewer[i].1) == fewer[i].0 * unit_nanos(smallest) by {
            assert(fewer[i] == sizes[i + 1]);
        }
        assert forall|i: int| 0 < i < fewer.len() implies above((#[trigger] fewer[i]).1)
            == unit_nanos(fewer[i - 1].1) && unit_nanos(fewer[i].1) < unit_nanos(
            fewer[i - 1].1,
        ) by {
            assert(fewer[i] == sizes[i + 1]);
            assert(fewer[i - 1] == sizes[i]);
        }
        let q = n / size;
        let r = n % size;
        let tail = text::broken_down(r, fewer, smallest) + rest;
        vstd::arithmetic::div_mod::lemma_fundamental_div_mod(n as int, size as int);
        let u = unit_nanos(smallest);
        assert(q * (size * u) <= n * u && r * u < size * u) by (nonlinear_arith)
            requires
                n == size * q + r,
                0 <= r < size,
                0 <= q,
                u > 0,
        ;
        if fewer.len() > 0 {
            assert(fewer[0] == sizes[1]);
            assert(fewer.last() == sizes.last());
        }
        lemma_broken_down_fits(r, fewer, smallest, rest, unit_nanos(unit));
        lemma_broken_down_is_read(r, fewer, smallest, rest, 0);
        lemma_counted_fits(q, unit, tail, last);
        assert(text::broken_down(n, sizes, smallest) + rest =~= text::counted(q, unit) + tail);
    }
}

/// A span that is not empty is written in the one proper way, with the largest
/// units that it has: there are less than 1000 nanoseconds, microseconds and
/// milliseconds each, less than 60 seconds and minutes each, less than 24 hours,
/// less than 7 days, and weeks for less than a year of 365 days. The larger units
/// stand first, and those that there are none of are left out.
pub proof fn lemma_span_has_the_largest_units(d: Duration)
    requires
        d.valid(),
        d.secs() > 0 || d.nanos() > 0,
    ensures
        span_fits(text::span(d), 0, above_large('y')),
{
    let none = Seq::<char>::empty();
    lemma_units();
    lemma_steps();
    let nanos = text::broken_down(d.nanos() as nat, text::units_of_nanoseconds(), "ns"@);
    assert(nanos + none =~= nanos);
    lemma_broken_down_fits(
        d.nanos() as nat,
        text::units_of_nanoseconds(),
        "ns"@,
        none,
        1_000_000_000,
    );
    lemma_broken_down_is_read(d.nanos() as nat, text::units_of_nanoseconds(), "ns"@, none, 0);
    lemma_broken_down_fits(
        d.secs() as nat,
        text::units_of_seconds(),
        "s"@,
        nanos,
        above_large('y'),
    );
}

proof fn lemma_steps()
    ensures
        are_steps(text::units_of_seconds(), "s"@),
        are_steps(text::units_of_nanoseconds(), "ns"@),
        above("y"@) == 18_446_744_073_709_551_616_000_000_000,
        above("ms"@) == 1_000_000_000,
        unit_nanos("y"@) < above_large('y'),
        unit_nanos("ms"@) < 1_000_000_000,
{
    reveal_strlit("y");
    reveal_strlit("w");
    reveal_strlit("d");
    reveal_strlit("h");
    reveal_strlit("m");
    reveal_strlit("s");
    reveal_strlit("ms");
    reveal_strlit("\u{b5}s");
    reveal_strlit("ns");
    assert("y"@[0] == 'y' && "w"@[0] == 'w' && "d"@[0] == 'd' && "h"@[0] == 'h');
    assert("m"@[0] == 'm' && "s"@[0] == 's' && "ms"@[0] == 'm' && "ns"@[0] == 'n');
    assert("\u{b5}s"@[0] == '\u{b5}');
}

/// The keyword of an action is its name in capitals, six letters long, and no
/// two actions have the same name.
#[verifier::spinoff_prover]
#[verifier::rlimit(40)]
pub proof fn lemma_keywords(a: PermissionKind, b: PermissionKind)
    ensures
        a.keyword().len() == 6,
        a.name().len() == 6,
        forall|i: int|
            0 <= i < 6 ==> 97 <= #[trigger] a.name()[i] as int <= 122 && a.keyword()[i] as int
                == a.name()[i] as int - 32,
        a.name() == b.name() ==> a == b,
        a.keyword() == b.keyword() ==> a == b,
        a.keyword()[1] != 'C',
        a.name() == match a {
            PermissionKind::Select => seq!['s', 'e', 'l', 'e', 'c', 't'],
            PermissionKind::Create => seq!['c', 'r', 'e', 'a', 't', 'e'],
            PermissionKind::Update => seq!['u', 'p', 'd', 'a', 't', 'e'],
            PermissionKind::Delete => seq!['d', 'e', 'l', 'e', 't', 'e'],
        },
{
    reveal_strlit("select");
    reveal_strlit("create");
    reveal_strlit("update");
    reveal_strlit("delete");
    reveal_strlit("SELECT");
    reveal_strlit("CREATE");
    reveal_strlit("UPDATE");
    reveal_strlit("DELETE");
    assert("select"@[0] == 's' && "create"@[0] == 'c' && "update"@[0] == 'u' && "delete"@[0]
        == 'd');
    assert("SELECT"@[0] == 'S' && "CREATE"@[0] == 'C' && "UPDATE"@[0] == 'U' && "DELETE"@[0]
        == 'D');
    assert forall|i: int| 0 <= i < 6 implies 97 <= #[trigger] a.name()[i] as int <= 122
        && a.keyword()[i] as int == a.name()[i] as int - 32 by {
        assert(i == 0 || i == 1 || i == 2 || i == 3 || i == 4 || i == 5);
    }
}

/// What stands at the place of the action at `i` in a list.
spec fn stands_right(actions: Seq<PermissionKind>, i: int) -> bool {
    let s = sql::action_list(actions);
    &&& s.subrange(8 * i, 8 * i + 6) == actions[i].keyword()
    &&& i < actions.len() - 1 ==> s[8 * i + 6] == ',' && s[8 * i + 7] == ' '
}

/// What stands at the places before and in a joint.
proof fn lemma_joint(f: Seq<char>, sep: Seq<char>, last: Seq<char>, at: int)
    requires
        sep.len() == 2,
        last.len() == 6,
        0 <= at,
        at + 6 <= f.len(),
    ensures
        ({
            let s = f + sep + last;
            let n = f.len() as int;
            &&& s.len() == n + 8
            &&& s.subrange(n + 2, n + 8) == last
            &&& s[n] == sep[0]
            &&& s[n + 1] == sep[1]
            &&& s.subrange(at, at + 6) == f.subrange(at, at + 6)
            &&& at + 8 <= n ==> s[at + 6] == f[at + 6] && s[at + 7] == f[at + 7]
        }),
{
    let s = f + sep + last;
    let n = f.len() as int;
    assert(s.subrange(n + 2, n + 8) =~= last);
    assert(s.subrange(at, at + 6) =~= f.subrange(at, at + 6));
}

/// A list of actions has the keyword of each of them, in order, and a comma and
/// a space between each two.
#[verifier::spinoff_prover]
#[verifier::rlimit(40)]
proof fn lemma_action_place(actions: Seq<PermissionKind>, i: int)
    requires
        0 <= i < actions.len(),
    ensures
        sql::action_list(actions).len() == 8 * actions.len() - 2,
        stands_right(actions, i),
    decreases actions.len(),
{
    let s = sql::action_list(actions);
    let n = actions.len() as int;
    let last = actions[n - 1].keyword();
    lemma_keywords(actions[n - 1], actions[n - 1]);
    if n == 1 {
        assert(s.subrange(0, 6) =~= last);
    } else {
        let front = actions.drop_last();
        let f = sql::action_list(front);
        let sep = ", "@;
        assert(sep.len() == 2 && sep[0] == ',' && sep[1] == ' ') by {
            reveal_strlit(", ");
        }
        assert(s == f + sep + last);
        let j = if i < n - 1 {
            i
        } else {
            0
        };
        lemma_action_place(front, j);
        assert(front[j] == actions[j]);
        lemma_joint(f, sep, last, 8 * j);
    }
}

/// Where the text behind the actions of a clause begins.
pub open spec fn behind_actions(r: RateLimit) -> int {
    4 + 8 * r.actions@.len() - 2
}

/// A clause from its key on.
spec fn from_key(r: RateLimit) -> Seq<char> {
    " BY "@ + r.bucket.covered() + sql::quota(" LIMIT "@, r.limit, r.period) + sql::option(
        " MAX "@,
        r.burst,
    ) + r.scan_quota(" SCAN "@) + sql::option(" RESULT "@, r.result)
}

/// A clause up to its condition.
spec fn to_condition(r: RateLimit) -> Seq<char> {
    "FOR "@ + sql::action_list(r.actions@)
}

/// A clause is made up of these and the condition between them.
#[verifier::spinoff_prover]
#[verifier::rlimit(40)]
proof fn lemma_clause_parts(r: RateLimit)
    requires
        r.actions@.len() > 0,
    ensures
        r.clause() == to_condition(r) + (r.guard() + from_key(r)),
        to_condition(r).len() == behind_actions(r),
        from_key(r).len() > 0,
        from_key(r)[0] == ' ',
{
    reveal_strlit("FOR ");
    reveal_strlit(" BY ");
    lemma_action_place(r.actions@, 0);
    assert(" BY "@[0] == ' ');
    assert(r.clause() =~= to_condition(r) + (r.guard() + from_key(r)));
}

/// Behind the actions a clause goes on with a space.
#[verifier::spinoff_prover]
#[verifier::rlimit(40)]
proof fn lemma_clause_splits(r: RateLimit) -> (rest: Seq<char>)
    requires
        r.actions@.len() > 0,
    ensures
        r.clause() == "FOR "@ + sql::action_list(r.actions@) + rest,
        rest.len() > 0,
        rest[0] == ' ',
{
    reveal_strlit(" WHERE ");
    lemma_clause_parts(r);
    let rest = r.guard() + from_key(r);
    assert(" WHERE "@[0] == ' ');
    if r.condition is Some {
        assert(rest[0] == r.guard()[0]);
    } else {
        assert(rest =~= from_key(r));
    }
    rest
}

proof fn lemma_put_in(start: Seq<char>, middle: Seq<char>, end: Seq<char>)
    ensures
        ({
            let plain = start + end;
            let n = start.len() as int;
            start + (middle + end) == plain.subrange(0, n) + middle + plain.subrange(
                n,
                plain.len() as int,
            )
        }),
{
    let plain = start + end;
    let n = start.len() as int;
    assert(plain.subrange(0, n) =~= start);
    assert(plain.subrange(n, plain.len() as int) =~= end);
    assert(start + (middle + end) =~= start + middle + end);
}

/// A clause names all of its actions: behind `FOR` stands the keyword of the
/// first, and behind each comma that of the next, up to the last, behind which
/// there is no comma.
#[verifier::spinoff_prover]
#[verifier::rlimit(40)]
pub proof fn lemma_clause_names_all_actions(r: RateLimit)
    requires
        r.actions@.len() > 0,
    ensures
        r.clause().len() > behind_actions(r),
        r.clause().subrange(0, 4) == "FOR "@,
        forall|i: int|
            #![trigger r.actions@[i]]
            0 <= i < r.actions@.len() ==> {
                &&& r.clause().subrange(4 + 8 * i, 10 + 8 * i) == r.actions@[i].keyword()
                &&& i < r.actions@.len() - 1 ==> r.clause()[10 + 8 * i] == ',' && r.clause()[11 + 8
                    * i] == ' '
            },
        r.clause()[behind_actions(r)] == ' ',
{
    reveal_strlit("FOR ");
    lemma_action_place(r.actions@, 0);
    let rest = lemma_clause_splits(r);
    let list = sql::action_list(r.actions@);
    let c = r.clause();
    let at = behind_actions(r);
    assert(c.subrange(0, 4) =~= "FOR "@);
    assert(c[at] == rest[0]);
    assert forall|i: int| #![trigger r.actions@[i]] 0 <= i < r.actions@.len() implies {
        &&& c.subrange(4 + 8 * i, 10 + 8 * i) == r.actions@[i].keyword()
        &&& i < r.actions@.len() - 1 ==> c[10 + 8 * i] == ',' && c[11 + 8 * i] == ' '
    } by {
        lemma_action_place(r.actions@, i);
        assert(c.subrange(4 + 8 * i, 10 + 8 * i) =~= list.subrange(8 * i, 8 * i + 6));
        if i < r.actions@.len() - 1 {
            assert(c[10 + 8 * i] == list[8 * i + 6]);
            assert(c[11 + 8 * i] == list[8 * i + 7]);
        }
    }
}

/// The actions can be read from a clause: two rate limits that are written the
/// same apply to the same actions, in the same order.
#[verifier::spinoff_prover]
#[verifier::rlimit(40)]
pub proof fn lemma_actions_read_back(a: RateLimit, b: RateLimit)
    requires
        a.clause() == b.clause(),
    ensures
        a.actions@ == b.actions@,
{
    let n = a.actions@.len() as int;
    let m = b.actions@.len() as int;
    if n == 0 && m > 0 {
        lemma_bare_is_no_action(a, b);
    } else if n > 0 && m == 0 {
        lemma_bare_is_no_action(b, a);
    } else if n > 0 && m > 0 {
        lemma_clause_names_all_actions(a);
        lemma_clause_names_all_actions(b);
        if n < m {
            let next = b.actions@[n - 1];
            assert(b.clause()[10 + 8 * (n - 1)] == ',');
        } else if m < n {
            let next = a.actions@[m - 1];
            assert(a.clause()[10 + 8 * (m - 1)] == ',');
        }
        assert forall|i: int| 0 <= i < n implies a.actions@[i] == b.actions@[i] by {
            lemma_keywords(a.actions@[i], b.actions@[i]);
        }
        assert(a.actions@ =~= b.actions@);
    } else {
        assert(a.actions@ =~= b.actions@);
    }
}

/// A bare quota is written otherwise than what names actions.
#[verifier::spinoff_prover]
#[verifier::rlimit(40)]
proof fn lemma_bare_is_no_action(a: RateLimit, b: RateLimit)
    requires
        a.actions@.len() == 0,
        b.actions@.len() > 0,
    ensures
        a.clause() != b.clause(),
{
    reveal_strlit("FOR ");
    reveal_strlit("SCAN ");
    lemma_clause_names_all_actions(b);
    lemma_keywords(b.actions@[0], b.actions@[0]);
    let key = b.clause().subrange(4, 10);
    assert(key[1] == b.clause()[5]);
    if a.scan is Some {
        assert(a.clause()[5] == 'C');
    }
}

/// The quota of result rows is written last, and nothing else of the clause
/// changes for it.
#[verifier::spinoff_prover]
#[verifier::rlimit(40)]
pub proof fn lemma_result_is_written_last(r: RateLimit, n: u64)
    requires
        r.actions@.len() > 0,
    ensures
        (RateLimit { result: Some(n), ..r }).clause() == (RateLimit { result: None, ..r }).clause()
            + " RESULT "@ + text::decimal(n as nat),
{
    let less = RateLimit { result: None, ..r };
    assert((RateLimit { result: Some(n), ..r }).clause() =~= less.clause() + " RESULT "@
        + text::decimal(n as nat));
}

/// The quota of scanned rows is written behind the burst, with its own span or
/// else with that of the limit.
#[verifier::spinoff_prover]
#[verifier::rlimit(40)]
pub proof fn lemma_scan_is_written_behind(r: RateLimit, n: u64)
    requires
        r.actions@.len() > 0,
        r.result is None,
    ensures
        (RateLimit { scan: Some(n), ..r }).clause() == (RateLimit { scan: None, ..r }).clause()
            + " SCAN "@ + text::decimal(n as nat) + " PER "@ + text::span(
            match r.scan_period {
                Some(period) => period,
                None => r.period,
            },
        ),
{
    let less = RateLimit { scan: None, ..r };
    let more = RateLimit { scan: Some(n), ..r };
    let span = text::span(more.scan_span());
    assert(more.clause() =~= less.clause() + " SCAN "@ + text::decimal(n as nat) + " PER "@ + span);
}

/// The burst is written behind the limit.
#[verifier::spinoff_prover]
#[verifier::rlimit(40)]
pub proof fn lemma_burst_is_written_behind(r: RateLimit, n: u64)
    requires
        r.actions@.len() > 0,
        r.result is None,
        r.scan is None,
    ensures
        (RateLimit { burst: Some(n), ..r }).clause() == (RateLimit { burst: None, ..r }).clause()
            + " MAX "@ + text::decimal(n as nat),
{
    let less = RateLimit { burst: None, ..r };
    assert((RateLimit { burst: Some(n), ..r }).clause() =~= less.clause() + " MAX "@
        + text::decimal(n as nat));
}

/// A condition is written behind the actions, and nothing else of the clause
/// changes for it.
#[verifier::spinoff_prover]
#[verifier::rlimit(40)]
pub proof fn lemma_condition_is_put_in(r: RateLimit, condition: Expr)
    requires
        r.actions@.len() > 0,
    ensures
        ({
            let plain = (RateLimit { condition: None, ..r }).clause();
            (RateLimit { condition: Some(condition), ..r }).clause() == plain.subrange(
                0,
                behind_actions(r),
            ) + " WHERE "@ + condition.covered() + plain.subrange(
                behind_actions(r),
                plain.len() as int,
            )
        }),
{
    let plain = RateLimit { condition: None, ..r };
    let full = RateLimit { condition: Some(condition), ..r };
    lemma_clause_parts(plain);
    lemma_clause_parts(full);
    assert(plain.guard() + from_key(plain) =~= from_key(plain));
    assert(to_condition(full) == to_condition(plain));
    assert(from_key(full) == from_key(plain));
    lemma_put_in(to_condition(plain), full.guard(), from_key(plain));
    let at = behind_actions(r);
    let c = plain.clause();
    assert(c.subrange(0, at) + full.guard() =~= c.subrange(0, at) + " WHERE "@
        + condition.covered());
}

/// What a rate limit without a condition, a burst and quotas is written as
/// behind its actions: the key, the limit and the period.
#[verifier::spinoff_prover]
#[verifier::rlimit(40)]
pub proof fn lemma_limit_is_written(r: RateLimit)
    requires
        r.actions@.len() > 0,
        r.condition is None,
        r.burst is None,
        r.scan is None,
        r.result is None,
    ensures
        r.clause().subrange(behind_actions(r), r.clause().len() as int) == " BY "@
            + r.bucket.covered() + " LIMIT "@ + text::decimal(r.limit as nat) + " PER "@
            + text::span(r.period),
{
    lemma_clause_parts(r);
    assert(r.guard() + from_key(r) =~= from_key(r));
    assert(r.clause().subrange(behind_actions(r), r.clause().len() as int) =~= from_key(r));
    assert(from_key(r) =~= " BY "@ + r.bucket.covered() + " LIMIT "@ + text::decimal(
        r.limit as nat,
    ) + " PER "@ + text::span(r.period));
}

/// A rate limit without actions is a quota of scanned rows, whatever else it
/// holds.
#[verifier::spinoff_prover]
#[verifier::rlimit(40)]
pub proof fn lemma_bare_quota(r: RateLimit, n: u64)
    requires
        r.actions@.len() == 0,
    ensures
        r.scan == Some(n) ==> r.clause() == "FOR SCAN "@ + text::decimal(n as nat) + " PER "@
            + text::span(
            match r.scan_period {
                Some(period) => period,
                None => r.period,
            },
        ),
        r.scan is None ==> r.clause() == "FOR "@,
{
    reveal_strlit("FOR SCAN ");
    reveal_strlit("FOR ");
    reveal_strlit("SCAN ");
    assert("FOR "@ + "SCAN "@ =~= "FOR SCAN "@);
    if r.scan == Some(n) {
        assert(r.clause() =~= "FOR SCAN "@ + text::decimal(n as nat) + " PER "@ + text::span(
            r.scan_span(),
        ));
    } else if r.scan is None {
        assert(r.clause() =~= "FOR "@);
    }
}

/// Texts with a separator between each two can be taken together either way.
proof fn lemma_regroup(x: Seq<char>, y: Seq<char>, z: Seq<char>, sep: Seq<char>)
    ensures
        x + sep + y + sep + z == x + sep + (y + sep + z),
{
    assert(x + sep + y + sep + z =~= x + sep + (y + sep + z));
}

#[verifier::spinoff_prover]
#[verifier::rlimit(40)]
proof fn lemma_clauses_join(a: Seq<RateLimit>, b: Seq<RateLimit>)
    requires
        a.len() > 0,
        b.len() > 0,
    ensures
        sql::clauses(a + b) == sql::clauses(a) + ", "@ + sql::clauses(b),
    decreases b.len(),
{
    let all = a + b;
    let last = b.last().clause();
    assert(all.last() == b.last());
    assert(sql::clauses(all) == sql::clauses(all.drop_last()) + ", "@ + last);
    if b.len() == 1 {
        assert(all.drop_last() =~= a);
    } else {
        let fewer = b.drop_last();
        lemma_clauses_join(a, fewer);
        assert(all.drop_last() =~= a + fewer);
        assert(sql::clauses(b) == sql::clauses(fewer) + ", "@ + last);
        lemma_regroup(sql::clauses(a), sql::clauses(fewer), last, ", "@);
    }
}

/// The clauses of a block stand one behind the other, with a comma and a space
/// between each two, wherever the block is cut.
#[verifier::spinoff_prover]
#[verifier::rlimit(40)]
pub proof fn lemma_blocks_join(a: Seq<RateLimit>, b: Seq<RateLimit>)
    requires
        a.len() > 0,
        b.len() > 0,
    ensures
        "RATELIMIT "@ + sql::clauses(b) == sql::block(b),
        sql::block(a + b) == sql::block(a) + ", "@ + sql::clauses(b),
        sql::block(seq![b[0]]) == "RATELIMIT "@ + b[0].clause(),
{
    lemma_clauses_join(a, b);
    assert(sql::block(a + b) =~= sql::block(a) + ", "@ + sql::clauses(b));
}

/// Without rate limits nothing is written.
pub proof fn lemma_empty_block()
    ensures
        sql::block(Seq::empty()).len() == 0,
{
}

/// Reads a text up to the quote that ends it: a backslash stands before a
/// character that is part of the text, whatever it is. Gives the text, and what
/// follows the quote.
pub open spec fn quote_read(s: Seq<char>) -> (Seq<char>, Seq<char>)
    decreases s.len(),
{
    if s.len() == 0 || s[0] == '\'' {
        (Seq::empty(), s.skip(1))
    } else if s[0] == '\\' && s.len() > 1 {
        let (text, rest) = quote_read(s.skip(2));
        (seq![s[1]] + text, rest)
    } else {
        let (text, rest) = quote_read(s.skip(1));
        (seq![s[0]] + text, rest)
    }
}

/// A text is quoted character by character.
pub proof fn lemma_escaped_joins(a: Seq<char>, b: Seq<char>)
    ensures
        sql::escaped(a + b) == sql::escaped(a) + sql::escaped(b),
    decreases b.len(),
{
    if b.len() == 0 {
        assert(a + b =~= a);
        assert(sql::escaped(a + b) =~= sql::escaped(a) + sql::escaped(b));
    } else {
        lemma_escaped_joins(a, b.drop_last());
        assert((a + b).drop_last() =~= a + b.drop_last());
        assert(sql::escaped(a + b) =~= sql::escaped(a) + sql::escaped(b));
    }
}

/// Nothing but quotes and backslashes is written otherwise than it is, and these
/// get one backslash each.
pub proof fn lemma_plain_text_is_kept(s: Seq<char>, c: char)
    ensures
        (forall|i: int| 0 <= i < s.len() ==> #[trigger] s[i] != '\'' && s[i] != '\\')
            ==> sql::escaped(s) == s,
        sql::escaped(s.push(c)).len() == sql::escaped(s).len() + if c == '\'' || c == '\\' {
            2int
        } else {
            1int
        },
    decreases s.len(),
{
    assert(s.push(c).drop_last() =~= s);
    if s.len() == 0 {
        assert(sql::escaped(s) =~= s);
    } else {
        let front = s.drop_last();
        lemma_plain_text_is_kept(front, c);
        if forall|i: int| 0 <= i < s.len() ==> #[trigger] s[i] != '\'' && s[i] != '\\' {
            assert forall|i: int| 0 <= i < front.len() implies #[trigger] front[i] != '\''
                && front[i] != '\\' by {
                assert(front[i] == s[i]);
            }
            assert(s[s.len() - 1] != '\'' && s[s.len() - 1] != '\\');
            assert(sql::escaped(s) =~= s);
        }
    }
}

proof fn lemma_escaped_is_read(s: Seq<char>, rest: Seq<char>)
    ensures
        quote_read(sql::escaped(s) + seq!['\''] + rest) == (s, rest),
    decreases s.len(),
{
    let all = sql::escaped(s) + seq!['\''] + rest;
    if s.len() == 0 {
        assert(all[0] == '\'');
        assert(all.skip(1) =~= rest);
        assert(s =~= Seq::empty());
    } else {
        let first = seq![s[0]];
        let tail = s.skip(1);
        lemma_escaped_is_read(tail, rest);
        lemma_escaped_joins(first, tail);
        assert(first + tail =~= s);
        assert(first.drop_last() =~= Seq::empty());
        reveal_with_fuel(sql::escaped, 2);
        let after = sql::escaped(tail) + seq!['\''] + rest;
        if s[0] == '\'' || s[0] == '\\' {
            assert(sql::escaped(first) =~= seq!['\\', s[0]]);
            assert(all =~= seq!['\\', s[0]] + after);
            assert(all.skip(2) =~= after);
        } else {
            assert(sql::escaped(first) =~= first);
            assert(all =~= first + after);
            assert(all.skip(1) =~= after);
        }
    }
}

/// A text literal reads back as its text, wherever it stands: it begins with a
/// quote, the next quote that no backslash stands before ends it, and between
/// them is the text, whatever characters it has.
pub proof fn lemma_literal_reads_back(s: String, rest: Seq<char>)
    ensures
        (Expr::Literal(Literal::String(s)).written() + rest)[0] == '\'',
        quote_read((Expr::Literal(Literal::String(s)).written() + rest).skip(1)) == (s@, rest),
        Expr::Literal(Literal::String(s)).covered() == Expr::Literal(Literal::String(s)).written(),
{
    reveal_strlit("'");
    let all = Expr::Literal(Literal::String(s)).written() + rest;
    assert(all[0] == '\'');
    assert(all.skip(1) =~= sql::escaped(s@) + seq!['\''] + rest);
    lemma_escaped_is_read(s@, rest);
}

/// Inside a statement another one stands in parentheses, and nothing else does.
pub proof fn lemma_statements_are_covered(expr: Expr)
    ensures
        match expr {
            Expr::Statement(s) => {
                &&& expr.written() == s@
                &&& expr.covered().len() == s@.len() + 2
                &&& expr.covered()[0] == '('
                &&& expr.covered().subrange(1, s@.len() as int + 1) == s@
                &&& expr.covered().last() == ')'
            },
            Expr::Inline(s) => expr.written() == s@ && expr.covered() == s@,
            Expr::Literal(_) => expr.covered() == expr.written(),
        },
{
    reveal_strlit("(");
    reveal_strlit(")");
    if let Expr::Statement(s) = expr {
        assert(expr.covered().subrange(1, s@.len() as int + 1) =~= s@);
    }
}

/// A stored rate limit and a written one say the same in each of their parts.
pub proof fn lemma_parts_are_kept(stored: catalog::RateLimit, written: RateLimit)
    requires
        written == sql::of_catalog(stored) || stored == catalog::of_sql(written),
    ensures
        written.actions@ == stored.actions@,
        written.condition == stored.condition,
        written.bucket == stored.bucket,
        written.limit == stored.limit,
        written.period == stored.period,
        written.burst == stored.burst,
        written.scan == stored.scan,
        written.scan_period == stored.scan_period,
        written.result == stored.result,
{
}

/// The description of a rate limit that has only what every one has: the names
/// of its actions, its key, its limit and its period.
pub proof fn lemma_plain_description(r: catalog::RateLimit)
    requires
        r.burst is None,
        r.condition is None,
        r.result is None,
        r.scan is None,
    ensures
        r.description().len() == 4,
        r.description()[0].0 == "actions"@,
        r.description()[0].1 matches catalog::Info::Strands(names) && names.len()
            == r.actions@.len() && forall|i: int|
            0 <= i < names.len() ==> #[trigger] names[i] == r.actions@[i].name(),
        r.description()[1] == ("by"@, catalog::Info::Strand(r.bucket.written())),
        r.description()[2] == ("limit"@, catalog::Info::Number(r.limit)),
        r.description()[3] == ("period"@, catalog::Info::Duration(r.period)),
{
}

/// Each part that a rate limit has beyond that adds an entry of its own to the
/// description, at the place of its name in the order of the alphabet, and
/// changes no other.
#[verifier::spinoff_prover]
#[verifier::rlimit(40)]
pub proof fn lemma_parts_are_described(r: catalog::RateLimit, n: u64, condition: Expr)
    ensures
        (catalog::RateLimit { burst: Some(n), ..r }).description() == (catalog::RateLimit {
            burst: None,
            ..r
        }).description().insert(1, ("burst"@, catalog::Info::Number(n))),
        r.burst is None ==> (catalog::RateLimit { condition: Some(condition), ..r }).description()
            == (catalog::RateLimit { condition: None, ..r }).description().insert(
            2,
            ("condition"@, catalog::Info::Strand(condition.written())),
        ),
        r.scan is None ==> (catalog::RateLimit { result: Some(n), ..r }).description() == (
        catalog::RateLimit { result: None, ..r }).description().push(
            ("result"@, catalog::Info::Number(n)),
        ),
        (catalog::RateLimit { scan: Some(n), ..r }).description() == (catalog::RateLimit {
            scan: None,
            ..r
        }).description().push(("scan"@, catalog::Info::Number(n))),
{
    let burst = catalog::RateLimit { burst: None, ..r };
    assert((catalog::RateLimit { burst: Some(n), ..r }).description()
        =~= burst.description().insert(1, ("burst"@, catalog::Info::Number(n))));
    if r.burst is None {
        let plain = catalog::RateLimit { condition: None, ..r };
        assert((catalog::RateLimit { condition: Some(condition), ..r }).description()
            =~= plain.description().insert(
            2,
            ("condition"@, catalog::Info::Strand(condition.written())),
        ));
    }
    if r.scan is None {
        let plain = catalog::RateLimit { result: None, ..r };
        assert((catalog::RateLimit { result: Some(n), ..r }).description()
            =~= plain.description().push(("result"@, catalog::Info::Number(n))));
    }
    let plain = catalog::RateLimit { scan: None, ..r };
    assert((catalog::RateLimit { scan: Some(n), ..r }).description() =~= plain.description().push(
        ("scan"@, catalog::Info::Number(n)),
    ));
}

/// The message of a budget that was exceeded has the limit, the resource and the
/// usage in it, in this order, and each of them as it is.
#[verifier::spinoff_prover]
#[verifier::rlimit(40)]
pub proof fn lemma_budget_message(resource: &'static str, limit: u64, used: u64)
    ensures
        ({
            let text = (Error::QueryResourceExceeded { resource, limit, used }).text();
            let a = text::decimal(limit as nat).len() as int;
            let b = resource@.len() as int;
            let c = text::decimal(used as nat).len() as int;
            &&& text.len() == 32 + a + 1 + b + 2 + c + 5
            &&& number(text.subrange(32, 32 + a)) == limit
            &&& text[32 + a] == ' '
            &&& text.subrange(33 + a, 33 + a + b) == resource@
            &&& text[33 + a + b] == ':'
            &&& number(text.subrange(35 + a + b, 35 + a + b + c)) == used
        }),
{
    reveal_strlit("The query exceeded its limit of ");
    reveal_strlit(" ");
    reveal_strlit(": ");
    reveal_strlit(" used");
    let text = (Error::QueryResourceExceeded { resource, limit, used }).text();
    let x = text::decimal(limit as nat);
    let y = text::decimal(used as nat);
    let a = x.len() as int;
    let b = resource@.len() as int;
    let c = y.len() as int;
    lemma_decimal_reads_back(limit as nat);
    lemma_decimal_reads_back(used as nat);
    assert(text.subrange(32, 32 + a) =~= x);
    assert(text.subrange(33 + a, 33 + a + b) =~= resource@);
    assert(text.subrange(35 + a + b, 35 + a + b + c) =~= y);
    assert(" "@[0] == ' ' && ": "@[0] == ':');
}

/// The message of a rate limit that was exceeded has the policy in it, and the
/// wait at its end, where there is one.
#[verifier::spinoff_prover]
#[verifier::rlimit(40)]
pub proof fn lemma_denial_message(scope: String, wait: Duration)
    ensures
        ({
            let plain = (Error::RateLimitExceeded { scope, retry_after: None }).text();
            let full = (Error::RateLimitExceeded { scope, retry_after: Some(wait) }).text();
            &&& plain.len() == 18 + scope@.len() + 13
            &&& plain.subrange(18, 18 + scope@.len() as int) == scope@
            &&& full.subrange(0, plain.len() as int) == plain
            &&& full.subrange(plain.len() as int, plain.len() as int + 14) == ", retry after "@
            &&& span_read(full.subrange(plain.len() as int + 14, full.len() as int), 0, 0) == wait.secs()
                * 1_000_000_000 + wait.nanos()
        }),
{
    reveal_strlit("The rate limit of ");
    reveal_strlit(" was exceeded");
    reveal_strlit(", retry after ");
    let plain = (Error::RateLimitExceeded { scope, retry_after: None }).text();
    let full = (Error::RateLimitExceeded { scope, retry_after: Some(wait) }).text();
    lemma_span_reads_back(wait);
    let n = plain.len() as int;
    assert(plain.subrange(18, 18 + scope@.len() as int) =~= scope@);
    assert(full.subrange(0, n) =~= plain);
    assert(full.subrange(n, n + 14) =~= ", retry after "@);
    assert(full.subrange(n + 14, full.len() as int) =~= text::span(wait));
}

} // verus!
