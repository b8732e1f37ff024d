//! Dates: the fixed form in which instants are stored, and that its order is the order of time.

use crate::store::order::{text_no_later, text_order_is_total};
use crate::text::digit_char;
use crate::time::{in_four_digit_years, is_instant};
use vstd::prelude::*;

verus! {

/// A date and a time of day in UTC. A second of sixty is a leap second.
pub struct Civil {
    pub year: int,
    pub month: int,
    pub day: int,
    pub hour: int,
    pub minute: int,
    pub second: int,
    pub milli: int,
}

/// Whether a year has a twenty-ninth of February.
pub open spec fn is_leap_year(y: int) -> bool {
    y % 4 == 0 && (y % 100 != 0 || y % 400 == 0)
}

/// How many days a month has.
pub open spec fn month_days(y: int, m: int) -> int {
    if m == 2 {
        if is_leap_year(y) {
            29
        } else {
            28
        }
    } else if m == 4 || m == 6 || m == 9 || m == 11 {
        30
    } else {
        31
    }
}

/// How many days lie between the first of January of the year 0 and that of a later year.
pub open spec fn days_before_year(y: int) -> int {
    365 * y + (y + 3) / 4 - (y + 99) / 100 + (y + 399) / 400
}

/// How many days of a year lie before a month.
pub open spec fn days_before_month(y: int, m: int) -> int
    decreases m,
{
    if m <= 1 {
        0
    } else {
        days_before_month(y, m - 1) + month_days(y, m - 1)
    }
}

/// How many days lie between the first of January of the year 0 and a date.
pub open spec fn day_number(y: int, m: int, d: int) -> int {
    days_before_year(y) + days_before_month(y, m) + d - 1
}

/// A date of the years 0 to 9999.
pub open spec fn is_date(y: int, m: int, d: int) -> bool {
    0 <= y <= 9999 && 1 <= m <= 12 && 1 <= d <= month_days(y, m)
}

/// Days from the first of January of the year 0 to that of 1970.
pub open spec fn epoch_days() -> int {
    719_528
}

/// That a date and time is an instant's, given by its seconds since the epoch and the nanoseconds
/// within the second.
pub open spec fn is_civil(c: Civil, secs: int, nanos: int) -> bool {
    &&& is_date(c.year, c.month, c.day)
    &&& 0 <= c.hour < 24
    &&& 0 <= c.minute < 60
    &&& nanos < 1_000_000_000 ==> 0 <= c.second < 60
    &&& nanos >= 1_000_000_000 ==> c.second == 60
    &&& c.milli == nanos % 1_000_000_000 / 1_000_000
    &&& secs == (day_number(c.year, c.month, c.day) - epoch_days()) * 86_400 + c.hour * 3600
        + c.minute * 60 + c.second - nanos / 1_000_000_000
}

/// The date and time of an instant.
pub open spec fn civil(secs: int, nanos: int) -> Civil {
    choose|c: Civil| is_civil(c, secs, nanos)
}

/// Two digits.
pub open spec fn two(n: int) -> Seq<char> {
    seq![digit_char(n / 10), digit_char(n % 10)]
}

/// Three digits.
pub open spec fn three(n: int) -> Seq<char> {
    seq![digit_char(n / 100), digit_char(n / 10 % 10), digit_char(n % 10)]
}

/// Four digits.
pub open spec fn four(n: int) -> Seq<char> {
    seq![
        digit_char(n / 1000),
        digit_char(n / 100 % 10),
        digit_char(n / 10 % 10),
        digit_char(n % 10),
    ]
}

/// A date and time as text: `YYYY-MM-DDTHH:MM:SS.mmmZ`.
pub open spec fn layout(c: Civil) -> Seq<char> {
    four(c.year) + seq!['-'] + two(c.month) + seq!['-'] + two(c.day) + seq!['T'] + two(c.hour)
        + seq![':'] + two(c.minute) + seq![':'] + two(c.second) + seq!['.'] + three(c.milli)
        + seq!['Z']
}

/// An instant as text, at milliseconds.
pub open spec fn date_text(secs: int, nanos: int) -> Seq<char> {
    layout(civil(secs, nanos))
}

proof fn lemma_year_days(y: int)
    requires
        0 <= y,
    ensures
        days_before_year(y + 1) - days_before_year(y) == days_before_month(y, 13),
{
    reveal_with_fuel(days_before_month, 14);
    assert(days_before_month(y, 13) == if is_leap_year(y) {
        366int
    } else {
        365int
    });
    assert((y + 4) / 4 - (y + 3) / 4 == if y % 4 == 0 {
        1int
    } else {
        0int
    });
    assert((y + 100) / 100 - (y + 99) / 100 == if y % 100 == 0 {
        1int
    } else {
        0int
    });
    assert((y + 400) / 400 - (y + 399) / 400 == if y % 400 == 0 {
        1int
    } else {
        0int
    });
    assert(y % 400 == 0 ==> y % 100 == 0);
    assert(y % 100 == 0 ==> y % 4 == 0);
}

proof fn lemma_years_grow(y: int, z: int)
    requires
        0 <= y < z,
    ensures
        days_before_year(y) + days_before_month(y, 13) <= days_before_year(z),
    decreases z - y,
{
    lemma_year_days(y);
    if y + 1 < z {
        lemma_years_grow(y + 1, z);
        lemma_months_grow(y + 1, 1, 13);
    }
}

proof fn lemma_months_grow(y: int, m: int, n: int)
    requires
        1 <= m < n <= 13,
    ensures
        days_before_month(y, m) + month_days(y, m) <= days_before_month(y, n),
        days_before_month(y, m) >= 0,
        days_before_month(y, n) >= 0,
    decreases n - m,
{
    reveal_with_fuel(days_before_month, 2);
    if m + 1 < n {
        lemma_months_grow(y, m, n - 1);
    }
    if m > 1 {
        lemma_month_positive(y, m);
    }
}

proof fn lemma_month_positive(y: int, m: int)
    requires
        1 <= m,
    ensures
        days_before_month(y, m) >= 0,
    decreases m,
{
    if m > 1 {
        lemma_month_positive(y, m - 1);
    }
}

/// Whether a date comes before another or is the same.
pub open spec fn date_no_later(a: Civil, b: Civil) -> bool {
    a.year < b.year || (a.year == b.year && (a.month < b.month || (a.month == b.month && a.day
        <= b.day)))
}

/// Later dates have larger numbers.
pub proof fn dates_are_numbered_in_order(a: Civil, b: Civil)
    requires
        is_date(a.year, a.month, a.day),
        is_date(b.year, b.month, b.day),
    ensures
        date_no_later(a, b) <==> day_number(a.year, a.month, a.day) <= day_number(
            b.year,
            b.month,
            b.day,
        ),
{
    if date_no_later(a, b) {
        lemma_before(a, b);
    } else {
        lemma_before(b, a);
    }
}

proof fn lemma_before(a: Civil, b: Civil)
    requires
        is_date(a.year, a.month, a.day),
        is_date(b.year, b.month, b.day),
        date_no_later(a, b),
    ensures
        day_number(a.year, a.month, a.day) <= day_number(b.year, b.month, b.day),
        (a.year != b.year || a.month != b.month || a.day != b.day) ==> day_number(
            a.year,
            a.month,
            a.day,
        ) < day_number(b.year, b.month, b.day),
{
    lemma_month_positive(b.year, b.month);
    if a.year < b.year {
        lemma_years_grow(a.year, b.year);
        lemma_months_grow(a.year, a.month, 13);
    } else if a.month < b.month {
        lemma_months_grow(a.year, a.month, b.month);
    }
}

/// That a date has a number.
pub open spec fn is_numbered(c: Civil, n: int) -> bool {
    is_date(c.year, c.month, c.day) && day_number(c.year, c.month, c.day) == n
}

/// Every number up to that of the last day of the year 9999 is a date's.
pub proof fn every_day_has_a_date(n: int) -> (c: Civil)
    requires
        0 <= n < days_before_year(10_000),
    ensures
        is_numbered(c, n),
    decreases n,
{
    if n == 0 {
        Civil { year: 0, month: 1, day: 1, hour: 0, minute: 0, second: 0, milli: 0 }
    } else {
        let p = every_day_has_a_date(n - 1);
        if p.day < month_days(p.year, p.month) {
            Civil { day: p.day + 1, ..p }
        } else if p.month < 12 {
            Civil { month: p.month + 1, day: 1, ..p }
        } else {
            lemma_year_days(p.year);
            reveal_with_fuel(days_before_month, 2);
            Civil { year: p.year + 1, month: 1, day: 1, ..p }
        }
    }
}

/// Every instant of the years 0 to 9999 has one date and time.
pub proof fn every_instant_has_a_date(secs: int, nanos: int)
    requires
        is_instant(secs, nanos),
        in_four_digit_years(secs),
    ensures
        is_civil(civil(secs, nanos), secs, nanos),
{
    let days = secs / 86_400 + epoch_days();
    let rest = secs % 86_400;
    let d = every_day_has_a_date(days);
    let leap = nanos / 1_000_000_000;
    let c = Civil {
        hour: rest / 3600,
        minute: rest / 60 % 60,
        second: rest % 60 + leap,
        milli: nanos % 1_000_000_000 / 1_000_000,
        ..d
    };
    assert(rest == rest / 3600 * 3600 + rest / 60 % 60 * 60 + rest % 60);
    if nanos >= 1_000_000_000 {
        assert(rest % 60 == secs % 60);
    }
    assert(is_civil(c, secs, nanos));
}

/// A date and time is one instant's only, and an instant has one.
pub proof fn a_date_is_one_instant(
    a: Civil,
    a_secs: int,
    a_nanos: int,
    b: Civil,
    b_secs: int,
    b_nanos: int,
)
    requires
        is_civil(a, a_secs, a_nanos),
        is_civil(b, b_secs, b_nanos),
        0 <= a_nanos < 2_000_000_000,
        0 <= b_nanos < 2_000_000_000,
    ensures
        a == b ==> a_secs == b_secs && a_nanos / 1_000_000 == b_nanos / 1_000_000,
        a_secs == b_secs && a_nanos / 1_000_000 == b_nanos / 1_000_000 ==> a == b,
{
    dates_are_numbered_in_order(a, b);
    dates_are_numbered_in_order(b, a);
    if a_secs == b_secs && a_nanos / 1_000_000 == b_nanos / 1_000_000 {
        let leap = a_nanos / 1_000_000_000;
        assert(b_nanos / 1_000_000_000 == leap);
        let x = a.hour * 3600 + a.minute * 60 + (a.second - leap);
        let y = b.hour * 3600 + b.minute * 60 + (b.second - leap);
        assert(0 <= x < 86_400);
        assert(0 <= y < 86_400);
        assert(day_number(a.year, a.month, a.day) == day_number(b.year, b.month, b.day));
        assert(x == y);
        assert(a.hour == b.hour);
        assert(a.minute == b.minute);
    }
}

/// Where two texts begin with as many characters, those decide, unless they are the same.
pub proof fn the_beginning_decides(p: Seq<char>, q: Seq<char>, x: Seq<char>, y: Seq<char>)
    requires
        p.len() == q.len(),
    ensures
        text_no_later(p + x, q + y) == if p == q {
            text_no_later(x, y)
        } else {
            text_no_later(p, q)
        },
    decreases p.len(),
{
    if p.len() == 0 {
        assert(p + x =~= x);
        assert(q + y =~= y);
        assert(p =~= q);
    } else {
        let a = p + x;
        let b = q + y;
        assert(a[0] == p[0]);
        assert(b[0] == q[0]);
        assert(a.skip(1) =~= p.skip(1) + x);
        assert(b.skip(1) =~= q.skip(1) + y);
        the_beginning_decides(p.skip(1), q.skip(1), x, y);
        if p[0] == q[0] && p.skip(1) == q.skip(1) {
            assert forall|i: int| 0 <= i < p.len() implies p[i] == q[i] by {
                if i > 0 {
                    assert(p.skip(1)[i - 1] == q.skip(1)[i - 1]);
                }
            }
            assert(p =~= q);
        }
    }
}

proof fn lemma_digits(a: int, b: int)
    requires
        0 <= a < 10,
        0 <= b < 10,
    ensures
        digit_char(a) == digit_char(b) <==> a == b,
        digit_char(a) < digit_char(b) <==> a < b,
        text_no_later(seq![digit_char(a)], seq![digit_char(b)]) <==> a <= b,
        seq![digit_char(a)] == seq![digit_char(b)] <==> a == b,
{
    let x = seq![digit_char(a)];
    let y = seq![digit_char(b)];
    assert(x[0] == digit_char(a));
    assert(y[0] == digit_char(b));
    reveal_with_fuel(text_no_later, 2);
}

proof fn lemma_two(a: int, b: int)
    requires
        0 <= a < 100,
        0 <= b < 100,
    ensures
        text_no_later(two(a), two(b)) <==> a <= b,
        two(a) == two(b) <==> a == b,
{
    lemma_digits(a / 10, b / 10);
    lemma_digits(a % 10, b % 10);
    let (p, x) = (seq![digit_char(a / 10)], seq![digit_char(a % 10)]);
    let (q, y) = (seq![digit_char(b / 10)], seq![digit_char(b % 10)]);
    the_beginning_decides(p, q, x, y);
    assert(two(a) =~= p + x);
    assert(two(b) =~= q + y);
    if two(a) == two(b) {
        text_order_is_total(two(a), two(b));
    }
}

proof fn lemma_hundreds(a: int)
    requires
        0 <= a < 1000,
    ensures
        three(a) == seq![digit_char(a / 100)] + two(a % 100),
{
    let (h, t) = (a / 100, a % 100);
    let (u, v) = (t / 10, t % 10);
    assert(a == 100 * h + 10 * u + v);
    assert(a / 10 == 10 * h + u);
    assert(three(a) =~= seq![digit_char(a / 100)] + two(a % 100));
}

proof fn lemma_three(a: int, b: int)
    requires
        0 <= a < 1000,
        0 <= b < 1000,
    ensures
        text_no_later(three(a), three(b)) <==> a <= b,
        three(a) == three(b) <==> a == b,
{
    lemma_digits(a / 100, b / 100);
    lemma_two(a % 100, b % 100);
    let (p, x) = (seq![digit_char(a / 100)], two(a % 100));
    let (q, y) = (seq![digit_char(b / 100)], two(b % 100));
    the_beginning_decides(p, q, x, y);
    lemma_hundreds(a);
    lemma_hundreds(b);
    if three(a) == three(b) {
        text_order_is_total(three(a), three(b));
    }
}

proof fn lemma_thousands(a: int)
    requires
        0 <= a < 10_000,
    ensures
        four(a) == seq![digit_char(a / 1000)] + three(a % 1000),
{
    let (k, r) = (a / 1000, a % 1000);
    let (h, t) = (r / 100, r % 100);
    let (u, v) = (t / 10, t % 10);
    assert(a == 1000 * k + 100 * h + 10 * u + v);
    assert(a / 100 == 10 * k + h);
    assert(a / 10 == 100 * k + 10 * h + u);
    assert(r / 10 == 10 * h + u);
    assert(four(a) =~= seq![digit_char(a / 1000)] + three(a % 1000));
}

proof fn lemma_four(a: int, b: int)
    requires
        0 <= a < 10_000,
        0 <= b < 10_000,
    ensures
        text_no_later(four(a), four(b)) <==> a <= b,
        four(a) == four(b) <==> a == b,
{
    lemma_digits(a / 1000, b / 1000);
    lemma_three(a % 1000, b % 1000);
    let (p, x) = (seq![digit_char(a / 1000)], three(a % 1000));
    let (q, y) = (seq![digit_char(b / 1000)], three(b % 1000));
    the_beginning_decides(p, q, x, y);
    lemma_thousands(a);
    lemma_thousands(b);
    if four(a) == four(b) {
        text_order_is_total(four(a), four(b));
    }
}

/// Whether a date and time comes before another or is the same.
pub open spec fn civil_no_later(a: Civil, b: Civil) -> bool {
    if a.year != b.year {
        a.year < b.year
    } else if a.month != b.month {
        a.month < b.month
    } else if a.day != b.day {
        a.day < b.day
    } else if a.hour != b.hour {
        a.hour < b.hour
    } else if a.minute != b.minute {
        a.minute < b.minute
    } else if a.second != b.second {
        a.second < b.second
    } else {
        a.milli <= b.milli
    }
}

/// That the parts of a date and time have their digits.
pub open spec fn is_writable(c: Civil) -> bool {
    &&& 0 <= c.year < 10_000
    &&& 0 <= c.month < 100
    &&& 0 <= c.day < 100
    &&& 0 <= c.hour < 100
    &&& 0 <= c.minute < 100
    &&& 0 <= c.second < 100
    &&& 0 <= c.milli < 1000
}

/// The order of two texts, as one fact.
#[verifier::opaque]
spec fn sorts(x: Seq<char>, y: Seq<char>) -> bool {
    text_no_later(x, y)
}

proof fn lemma_part(p: Seq<char>, q: Seq<char>, sep: char, x: Seq<char>, y: Seq<char>)
    requires
        p.len() == q.len(),
    ensures
        sorts(p + (seq![sep] + x), q + (seq![sep] + y)) == if p == q {
            sorts(x, y)
        } else {
            text_no_later(p, q)
        },
{
    reveal(sorts);
    the_beginning_decides(p, q, seq![sep] + x, seq![sep] + y);
    the_beginning_decides(seq![sep], seq![sep], x, y);
}

spec fn time_tail(c: Civil) -> Seq<char> {
    two(c.hour) + (seq![':'] + (two(c.minute) + (seq![':'] + (two(c.second) + (seq!['.'] + (three(
        c.milli,
    ) + seq!['Z']))))))
}

spec fn nested(c: Civil) -> Seq<char> {
    four(c.year) + (seq!['-'] + (two(c.month) + (seq!['-'] + (two(c.day) + (seq!['T'] + time_tail(
        c,
    ))))))
}

proof fn lemma_nested(c: Civil)
    ensures
        layout(c) == nested(c),
        layout(c).len() == 24,
{
    assert(layout(c) =~= nested(c));
}

proof fn lemma_time_sorts(a: Civil, b: Civil)
    requires
        is_writable(a),
        is_writable(b),
    ensures
        sorts(time_tail(a), time_tail(b)) == if a.hour != b.hour {
            a.hour < b.hour
        } else if a.minute != b.minute {
            a.minute < b.minute
        } else if a.second != b.second {
            a.second < b.second
        } else {
            a.milli <= b.milli
        },
{
    lemma_two(a.hour, b.hour);
    lemma_two(a.minute, b.minute);
    lemma_two(a.second, b.second);
    lemma_three(a.milli, b.milli);
    let z = seq!['Z'];
    let (sa, sb) = (three(a.milli) + z, three(b.milli) + z);
    assert(sorts(sa, sb) == (a.milli <= b.milli)) by {
        reveal(sorts);
        the_beginning_decides(three(a.milli), three(b.milli), z, z);
        text_order_is_total(z, z);
    }
    let (ra, rb) = (two(a.second) + (seq!['.'] + sa), two(b.second) + (seq!['.'] + sb));
    lemma_part(two(a.second), two(b.second), '.', sa, sb);
    let (qa, qb) = (two(a.minute) + (seq![':'] + ra), two(b.minute) + (seq![':'] + rb));
    lemma_part(two(a.minute), two(b.minute), ':', ra, rb);
    lemma_part(two(a.hour), two(b.hour), ':', qa, qb);
}

/// The order of dates and times is the order of their texts.
pub proof fn dates_sort_as_text(a: Civil, b: Civil)
    requires
        is_writable(a),
        is_writable(b),
    ensures
        text_no_later(layout(a), layout(b)) <==> civil_no_later(a, b),
        layout(a).len() == 24,
{
    lemma_four(a.year, b.year);
    lemma_two(a.month, b.month);
    lemma_two(a.day, b.day);
    lemma_time_sorts(a, b);
    let (oa, ob) = (
        two(a.day) + (seq!['T'] + time_tail(a)),
        two(b.day) + (seq!['T'] + time_tail(b)),
    );
    lemma_part(two(a.day), two(b.day), 'T', time_tail(a), time_tail(b));
    let (na, nb) = (two(a.month) + (seq!['-'] + oa), two(b.month) + (seq!['-'] + ob));
    lemma_part(two(a.month), two(b.month), '-', oa, ob);
    lemma_part(four(a.year), four(b.year), '-', na, nb);
    lemma_nested(a);
    lemma_nested(b);
    assert(sorts(layout(a), layout(b)) == text_no_later(layout(a), layout(b))) by {
        reveal(sorts);
    }
}

/// Two dates and times with one text are the same.
pub proof fn a_text_is_one_date(a: Civil, b: Civil)
    requires
        is_writable(a),
        is_writable(b),
        layout(a) == layout(b),
    ensures
        a == b,
{
    dates_sort_as_text(a, b);
    dates_sort_as_text(b, a);
    text_order_is_total(layout(a), layout(b));
}

/// The text of an instant is of no other, at milliseconds.
pub proof fn a_text_is_one_instant(a_secs: int, a_nanos: int, b_secs: int, b_nanos: int)
    requires
        is_instant(a_secs, a_nanos),
        is_instant(b_secs, b_nanos),
        in_four_digit_years(a_secs),
        in_four_digit_years(b_secs),
    ensures
        date_text(a_secs, a_nanos) == date_text(b_secs, b_nanos) <==> a_secs == b_secs && a_nanos
            / 1_000_000 == b_nanos / 1_000_000,
        date_text(a_secs, a_nanos).len() == 24,
{
    every_instant_has_a_date(a_secs, a_nanos);
    every_instant_has_a_date(b_secs, b_nanos);
    let (a, b) = (civil(a_secs, a_nanos), civil(b_secs, b_nanos));
    a_date_is_one_instant(a, a_secs, a_nanos, b, b_secs, b_nanos);
    dates_sort_as_text(a, b);
    if layout(a) == layout(b) {
        a_text_is_one_date(a, b);
    }
}

/// Stored texts sort as the instants do, at milliseconds, where neither lies in a leap second.
pub proof fn stored_texts_sort_by_time(a_secs: int, a_nanos: int, b_secs: int, b_nanos: int)
    requires
        is_instant(a_secs, a_nanos),
        is_instant(b_secs, b_nanos),
        in_four_digit_years(a_secs),
        in_four_digit_years(b_secs),
        a_nanos < 1_000_000_000,
        b_nanos < 1_000_000_000,
    ensures
        text_no_later(date_text(a_secs, a_nanos), date_text(b_secs, b_nanos)) <==> a_secs * 1000
            + a_nanos / 1_000_000 <= b_secs * 1000 + b_nanos / 1_000_000,
{
    every_instant_has_a_date(a_secs, a_nanos);
    every_instant_has_a_date(b_secs, b_nanos);
    let (a, b) = (civil(a_secs, a_nanos), civil(b_secs, b_nanos));
    dates_sort_as_text(a, b);
    dates_are_numbered_in_order(a, b);
    dates_are_numbered_in_order(b, a);
    let (m, n) = (day_number(a.year, a.month, a.day), day_number(b.year, b.month, b.day));
    let x = a.hour * 3600 + a.minute * 60 + a.second;
    let y = b.hour * 3600 + b.minute * 60 + b.second;
    assert(0 <= x < 86_400);
    assert(0 <= y < 86_400);
    assert(a_secs == (m - epoch_days()) * 86_400 + x);
    assert(b_secs == (n - epoch_days()) * 86_400 + y);
    assert(a.milli == a_nanos / 1_000_000);
    assert(b.milli == b_nanos / 1_000_000);
    if m == n {
        assert(a.year == b.year && a.month == b.month && a.day == b.day);
    }
}

} // verus!
