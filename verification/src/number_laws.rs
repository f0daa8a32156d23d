//! How numbers and times are written.

use vstd::prelude::*;

use crate::paths::{last_dot, name_extension, stem};
use crate::text::{all_digits, decimal, digit, digits_value, number, unsigned};
use crate::time::{
    day_number, month_days, padded, shows_time, time_text, two_digits, year_days, year_text,
    ClockTime,
};

verus! {

/// The digit at a place.
pub open spec fn digit_value(c: char) -> int {
    c as u32 - 48
}

/// The number that digits stand for, read from left to right.
pub open spec fn value_of(digits: Seq<char>) -> int
    decreases digits.len(),
{
    if digits.len() == 0 {
        0
    } else {
        10 * value_of(digits.drop_last()) + digit_value(digits.last())
    }
}

/// Digits alone.
pub open spec fn numerals(s: Seq<char>) -> bool {
    forall|i: int| 0 <= i < s.len() ==> '0' <= #[trigger] s[i] && s[i] <= '9'
}

/// A number is written in digits that stand for it, without zeros in front.
pub proof fn law_decimal(n: nat)
    ensures
        decimal(n).len() > 0,
        numerals(decimal(n)),
        value_of(decimal(n)) == n,
        n > 0 ==> decimal(n)[0] != '0',
        n < 10 ==> decimal(n).len() == 1,
        n >= 10 ==> decimal(n).len() >= 2,
    decreases n,
{
    if n >= 10 {
        law_decimal(n / 10);
        let before = decimal(n / 10);
        let all = decimal(n);
        assert(all.drop_last() =~= before);
        assert forall|i: int| 0 <= i < all.len() implies '0' <= #[trigger] all[i] && all[i]
            <= '9' by {
            if i < before.len() {
                assert(all[i] == before[i]);
            }
        }
        assert(all[0] == before[0]);
    } else {
        let all = decimal(n);
        assert(all.drop_last() =~= Seq::empty());
        assert(value_of(all.drop_last()) == 0);
    }
}

proof fn lemma_value(s: Seq<char>)
    ensures
        digits_value(s) == value_of(s),
    decreases s.len(),
{
    if s.len() > 0 {
        lemma_value(s.drop_last());
    }
}

proof fn lemma_decimal_fits(s: Seq<char>)
    requires
        numerals(s),
    ensures
        all_digits(s),
{
    assert forall|i: int| 0 <= i < s.len() implies digit(#[trigger] s[i]) by {
        assert('0' <= s[i] && s[i] <= '9');
    }
}

/// A number that was written is read back, with a plus sign in front of it or
/// without; and what is read as a number is made of digits that stand for it.
pub proof fn law_numbers_are_read_back(n: nat)
    requires
        n <= u64::MAX,
    ensures
        number(decimal(n)) == Some(n as int),
        number(seq!['+'] + decimal(n)) == Some(n as int),
{
    law_decimal(n);
    lemma_value(decimal(n));
    lemma_decimal_fits(decimal(n));
    assert('0' <= decimal(n)[0] && decimal(n)[0] <= '9');
    assert(unsigned(decimal(n)) == decimal(n));
    let plus = seq!['+'] + decimal(n);
    assert(plus.drop_first() =~= decimal(n));
}

/// What is read as a number is digits that stand for it.
pub proof fn law_only_digits_are_numbers(s: Seq<char>)
    requires
        number(s) is Some,
    ensures
        ({
            let digits = if s.len() > 0 && s[0] == '+' {
                s.skip(1)
            } else {
                s
            };
            digits.len() > 0 && numerals(digits) && number(s) == Some(value_of(digits))
        }),
{
    let digits = unsigned(s);
    lemma_value(digits);
    if s.len() > 0 && s[0] == '+' {
        assert(s.drop_first() =~= s.skip(1));
    }
    assert forall|i: int| 0 <= i < digits.len() implies '0' <= #[trigger] digits[i] && digits[i]
        <= '9' by {
        assert(digit(digits[i]));
    }
}

proof fn lemma_padded(s: Seq<char>, width: int)
    requires
        numerals(s),
    ensures
        padded(s, width).len() == if s.len() >= width {
            s.len() as int
        } else {
            width
        },
        numerals(padded(s, width)),
        value_of(padded(s, width)) == value_of(s),
    decreases width - s.len(),
{
    if s.len() < width {
        let more = seq!['0'] + s;
        lemma_zero_in_front(s);
        assert forall|i: int| 0 <= i < more.len() implies '0' <= #[trigger] more[i] && more[i]
            <= '9' by {
            if i > 0 {
                assert(more[i] == s[i - 1]);
            }
        }
        lemma_padded(more, width);
    }
}

proof fn lemma_zero_in_front(s: Seq<char>)
    ensures
        value_of(seq!['0'] + s) == value_of(s),
    decreases s.len(),
{
    let more = seq!['0'] + s;
    if s.len() == 0 {
        assert(more.drop_last() =~= Seq::empty());
        assert(value_of(more.drop_last()) == 0);
    } else {
        lemma_zero_in_front(s.drop_last());
        assert(more.drop_last() =~= seq!['0'] + s.drop_last());
    }
}

/// A number that is filled up with zeros has the digits that were asked for, or as
/// many as it needs, and stands for the same.
pub proof fn law_padding_keeps_the_number(n: nat, width: int)
    ensures
        padded(decimal(n), width).len() >= width,
        numerals(padded(decimal(n), width)),
        value_of(padded(decimal(n), width)) == n,
        n < 100 && width == 2 ==> padded(decimal(n), width).len() == 2,
        n < 10_000 && width == 4 ==> padded(decimal(n), width).len() == 4,
{
    law_decimal(n);
    lemma_padded(decimal(n), width);
    lemma_decimal_length(n);
}

proof fn lemma_decimal_length(n: nat)
    ensures
        n < 100 ==> decimal(n).len() <= 2,
        n < 10_000 ==> decimal(n).len() <= 4,
{
    reveal_with_fuel(decimal, 5);
}

/// A time of the years from 0 to 9999 is written as year, month, day, hour and minute,
/// in four digits and then two each, with marks between them.
pub proof fn law_times_are_written_in_order(t: ClockTime)
    requires
        0 <= t.year <= 9_999,
        t.month <= 99,
        t.day <= 99,
        t.hour <= 99,
        t.minute <= 99,
    ensures
        ({
            let s = time_text(
                t.year as int,
                t.month as int,
                t.day as int,
                t.hour as int,
                t.minute as int,
            );
            &&& s.len() == 16
            &&& value_of(s.subrange(0, 4)) == t.year
            &&& s[4] == '-'
            &&& value_of(s.subrange(5, 7)) == t.month
            &&& s[7] == '-'
            &&& value_of(s.subrange(8, 10)) == t.day
            &&& s[10] == ' '
            &&& value_of(s.subrange(11, 13)) == t.hour
            &&& s[13] == ':'
            &&& value_of(s.subrange(14, 16)) == t.minute
        }),
{
    reveal_strlit("-");
    reveal_strlit(" ");
    reveal_strlit(":");
    let y = year_text(t.year as int);
    let m = two_digits(t.month as int);
    let d = two_digits(t.day as int);
    let h = two_digits(t.hour as int);
    let n = two_digits(t.minute as int);
    law_padding_keeps_the_number(t.year as nat, 4);
    law_padding_keeps_the_number(t.month as nat, 2);
    law_padding_keeps_the_number(t.day as nat, 2);
    law_padding_keeps_the_number(t.hour as nat, 2);
    law_padding_keeps_the_number(t.minute as nat, 2);
    let s = time_text(
        t.year as int,
        t.month as int,
        t.day as int,
        t.hour as int,
        t.minute as int,
    );
    assert(s.subrange(0, 4) =~= y);
    assert(s.subrange(5, 7) =~= m);
    assert(s.subrange(8, 10) =~= d);
    assert(s.subrange(11, 13) =~= h);
    assert(s.subrange(14, 16) =~= n);
}

/// The time of a clock and the milliseconds that it was made of are less than a minute
/// apart.
pub proof fn law_clocks_keep_the_time(ms: int, t: ClockTime)
    requires
        shows_time(ms, t),
    ensures
        t.hour < 24,
        t.minute < 60,
        ({
            let shown = 86_400_000 * day_number(t.year as int, t.month as int, t.day as int)
                + 3_600_000 * t.hour + 60_000 * t.minute;
            shown <= ms < shown + 60_000
        }),
{
    let day = ms % 86_400_000;
    assert(ms == 86_400_000 * (ms / 86_400_000) + day);
    assert(ms % 3_600_000 == day % 3_600_000) by (nonlinear_arith)
        requires
            ms == 86_400_000 * (ms / 86_400_000) + day,
    ;
}

/// Every fourth year has a day more, but of the full centuries only every fourth.
pub proof fn law_leap_years(year: int)
    ensures
        year_days(year) == 366 <==> year % 400 == 0 || (year % 4 == 0 && year % 100 != 0),
        year_days(year) == 365 || year_days(year) == 366,
        month_days(year, 2) == if year_days(year) == 366 {
            29int
        } else {
            28
        },
        forall|month: int|
            #[trigger] month_days(year, month) == 30 <==> month == 4 || month == 6 || month == 9
                || month == 11,
        forall|month: int|
            1 <= month <= 12 && month != 2 && month != 4 && month != 6 && month != 9 && month != 11
                ==> #[trigger] month_days(year, month) == 31,
        day_number(1970, 1, 1) == 0,
{
    assert(year % 400 == 0 ==> year % 4 == 0);
    assert(crate::time::month_start(1970, 1) == 0);
}

/// A name of a file and its extension, with a dot between them.
pub open spec fn dotted(name: Seq<char>, ext: Seq<char>) -> Seq<char> {
    name + seq!['.'] + ext
}

proof fn lemma_last_dot(name: Seq<char>, ext: Seq<char>, i: int)
    requires
        !ext.contains('.'),
        name.len() < i <= dotted(name, ext).len(),
    ensures
        last_dot(dotted(name, ext), i) == name.len(),
    decreases i,
{
    let s = dotted(name, ext);
    if i - 1 > name.len() {
        assert(s[i - 1] == ext[i - 2 - name.len()]);
        assert(ext.contains(ext[i - 2 - name.len()]));
        lemma_last_dot(name, ext, i - 1);
    } else {
        assert(s[i - 1] == '.');
    }
}

proof fn lemma_no_dot(s: Seq<char>, i: int)
    requires
        !s.contains('.'),
        0 <= i <= s.len(),
    ensures
        last_dot(s, i) == -1,
    decreases i,
{
    if i > 0 {
        assert(s.contains(s[i - 1]));
        lemma_no_dot(s, i - 1);
    }
}

/// The extension of a file is what stands behind the last dot of its name, and the
/// rest of the name before that dot is its stem. A name without a dot has no
/// extension, nor has one whose only dot is in front.
pub proof fn law_extensions_of_names(name: Seq<char>, ext: Seq<char>)
    requires
        !ext.contains('.'),
    ensures
        name.len() > 0 && ext.len() > 0 ==> name_extension(dotted(name, ext)) == Some(ext),
        stem(dotted(name, ext)) == name,
        name.len() == 0 ==> name_extension(dotted(name, ext)) is None,
        name_extension(ext) is None,
        stem(ext) == ext,
{
    reveal_strlit("..");
    let s = dotted(name, ext);
    lemma_last_dot(name, ext, s.len() as int);
    lemma_no_dot(ext, ext.len() as int);
    assert(s.subrange(1int + name.len(), s.len() as int) =~= ext);
    assert(s.subrange(0, name.len() as int) =~= name);
    if ext.len() > 0 && s == ".."@ {
        assert(s.last() == '.');
        assert(s.last() == ext.last());
        assert(ext.contains(ext[ext.len() - 1]));
    }
}

} // verus!
