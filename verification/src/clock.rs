//! Times as dates of the Gregorian calendar, in UTC.

use vstd::prelude::*;

verus! {

/// The year has 366 days.
pub open spec fn is_leap(y: int) -> bool {
    y % 4 == 0 && (y % 100 != 0 || y % 400 == 0)
}

/// How many days the month has.
pub open spec fn month_days(y: int, m: int) -> int {
    if m == 2 {
        if is_leap(y) {
            29
        } else {
            28
        }
    } else if m == 4 || m == 6 || m == 9 || m == 11 {
        30
    } else {
        31
    }
}

/// How many days of the year lie before the month.
pub open spec fn days_before_month(y: int, m: int) -> int
    decreases m,
{
    if m <= 1 {
        0
    } else {
        days_before_month(y, m - 1) + month_days(y, m - 1)
    }
}

/// How many leap years there are from year 1 to year `y`.
pub open spec fn leap_years(y: int) -> int {
    y / 4 - y / 100 + y / 400
}

/// How many days lie between the start of 1970 and the start of the year.
pub open spec fn days_before_year(y: int) -> int {
    365 * (y - 1970) + leap_years(y - 1) - leap_years(1969)
}

/// A date.
#[derive(Clone, Copy, Debug, PartialEq, Eq, Structural)]
pub struct Date {
    pub year: u64,
    pub month: u64,
    pub day: u64,
}

/// `date` is the date that lies `days` days behind 1970-01-01.
pub open spec fn is_date(days: int, date: Date) -> bool {
    &&& 1 <= date.month <= 12
    &&& 1 <= date.day <= month_days(date.year as int, date.month as int)
    &&& days == days_before_year(date.year as int) + days_before_month(
        date.year as int,
        date.month as int,
    ) + date.day - 1
}

/// The start of a year lies as many days behind that of the year before as that year has.
pub proof fn years_follow_each_other(y: int)
    ensures
        days_before_year(y + 1) == days_before_year(y) + days_before_month(y, 12) + month_days(
            y,
            12,
        ),
        days_before_year(1970) == 0,
{
    lemma_months(y);
}

proof fn lemma_months(y: int)
    ensures
        days_before_month(y, 1) == 0,
        days_before_month(y, 2) == 31,
        ({
            let f = 31 + month_days(y, 2);
            &&& days_before_month(y, 3) == f
            &&& days_before_month(y, 4) == f + 31
            &&& days_before_month(y, 5) == f + 61
            &&& days_before_month(y, 6) == f + 92
            &&& days_before_month(y, 7) == f + 122
            &&& days_before_month(y, 8) == f + 153
            &&& days_before_month(y, 9) == f + 184
            &&& days_before_month(y, 10) == f + 214
            &&& days_before_month(y, 11) == f + 245
            &&& days_before_month(y, 12) == f + 275
        }),
{
    reveal_with_fuel(days_before_month, 13);
}

/// A day has one date.
pub proof fn dates_are_unique(days: int, a: Date, b: Date)
    requires
        is_date(days, a),
        is_date(days, b),
    ensures
        a == b,
{
    lemma_months(a.year as int);
    lemma_months(b.year as int);
    if a.year < b.year {
        lemma_years_grow(a.year as int + 1, b.year as int);
        years_follow_each_other(a.year as int);
    } else if b.year < a.year {
        lemma_years_grow(b.year as int + 1, a.year as int);
        years_follow_each_other(b.year as int);
    }
}

proof fn lemma_years_grow(a: int, b: int)
    requires
        a <= b,
    ensures
        days_before_year(a) <= days_before_year(b),
    decreases b - a,
{
    if a < b {
        lemma_years_grow(a, b - 1);
        years_follow_each_other(b - 1);
        lemma_months(b - 1);
    }
}

/// The year of a day within 400 years that start in March, and the day within that year.
proof fn lemma_year_of_era(doe: int, yoe: int, doy: int)
    requires
        0 <= doe < 146_097,
        yoe == (doe - doe / 1460 + doe / 36_524 - doe / 146_096) / 365,
        doy == doe - (365 * yoe + yoe / 4 - yoe / 100),
    ensures
        0 <= yoe < 400,
        0 <= doy <= 365,
        doy == 365 ==> (yoe + 1) % 4 == 0 && ((yoe + 1) % 100 != 0 || yoe + 1 == 400),
{
}

/// The month of a day within a year that starts in March, and the day of the month.
proof fn lemma_month_of_year(y: int, doy: int, mp: int, d: int, month: int)
    requires
        0 <= doy <= 365,
        mp == (5 * doy + 2) / 153,
        d == doy - (153 * mp + 2) / 5 + 1,
        month == (if mp < 10 {
            mp + 3
        } else {
            mp - 9
        }),
    ensures
        0 <= mp <= 11,
        1 <= month <= 12,
        1 <= d,
        month != 2 ==> d <= month_days(y, month),
        month == 2 ==> d <= 29 && (d == 29 <==> doy == 365),
        mp < 10 ==> doy == days_before_month(y, month) - days_before_month(y, 3) + d - 1,
        mp >= 10 ==> doy == 306 + days_before_month(y, month) + d - 1,
{
    lemma_months(y);
    assert(mp <= 11);
}

/// The start of March, counted from March of the year 0.
proof fn lemma_march(era: int, yoe: int)
    requires
        0 <= yoe < 400,
        era >= 0,
    ensures
        ({
            let y = 400 * era + yoe;
            &&& days_before_year(y) + days_before_month(y, 3) == 146_097 * era + 365 * yoe + yoe / 4
                - yoe / 100 - 719_468
            &&& is_leap(y + 1) <==> (yoe + 1) % 4 == 0 && ((yoe + 1) % 100 != 0 || yoe + 1 == 400)
        }),
{
    lemma_months(400 * era + yoe);
}

/// The date that lies `days` days behind 1970-01-01.
pub fn date_of(days: u64) -> (r: Date)
    requires
        days <= 0x7fff_ffff_ffff_ffff,
    ensures
        is_date(days as int, r),
{
    let z: u64 = days + 719_468;
    let era: u64 = z / 146_097;
    let doe: u64 = z - era * 146_097;
    let yoe: u64 = (doe - doe / 1460 + doe / 36_524 - doe / 146_096) / 365;
    proof {
        lemma_year_of_era(
            doe as int,
            yoe as int,
            doe as int - (365 * yoe + yoe / 4 - yoe / 100),
        );
    }
    let y: u64 = yoe + era * 400;
    let doy: u64 = doe - (365 * yoe + yoe / 4 - yoe / 100);
    let mp: u64 = (5 * doy + 2) / 153;
    assert(mp <= 11);
    let day: u64 = doy + 1 - (153 * mp + 2) / 5;
    let month: u64 = if mp < 10 {
        mp + 3
    } else {
        mp - 9
    };
    let year: u64 = if month <= 2 {
        y + 1
    } else {
        y
    };
    proof {
        lemma_march(era as int, yoe as int);
        lemma_month_of_year(year as int, doy as int, mp as int, day as int, month as int);
        lemma_months(year as int);
        lemma_months(y as int);
        years_follow_each_other(y as int);
    }
    Date { year, month, day }
}

/// A number in decimal digits.
pub open spec fn decimal(n: nat) -> Seq<char>
    decreases n,
{
    if n < 10 {
        seq![digit(n)]
    } else {
        decimal(n / 10).push(digit(n % 10))
    }
}

/// The character of a digit.
pub open spec fn digit(n: nat) -> char {
    (48 + n) as char
}

/// `n` in at least `width` digits, with zeros in front.
pub open spec fn padded(n: nat, width: nat) -> Seq<char> {
    let d = decimal(n);
    Seq::new(
        (if d.len() < width {
            (width - d.len()) as nat
        } else {
            0
        }),
        |i: int| '0',
    ) + d
}

fn digit_of(n: u64) -> (r: char)
    requires
        n < 10,
    ensures
        r == digit(n as nat),
{
    if n == 0 {
        '0'
    } else if n == 1 {
        '1'
    } else if n == 2 {
        '2'
    } else if n == 3 {
        '3'
    } else if n == 4 {
        '4'
    } else if n == 5 {
        '5'
    } else if n == 6 {
        '6'
    } else if n == 7 {
        '7'
    } else if n == 8 {
        '8'
    } else {
        '9'
    }
}

fn decimal_digits(n: u64) -> (r: Vec<char>)
    ensures
        r@ == decimal(n as nat),
    decreases n,
{
    if n < 10 {
        let mut r: Vec<char> = Vec::new();
        r.push(digit_of(n));
        assert(r@ =~= decimal(n as nat));
        r
    } else {
        let mut r = decimal_digits(n / 10);
        r.push(digit_of(n % 10));
        r
    }
}

/// Appends `n` in at least `width` digits.
fn push_padded(out: &mut String, n: u64, width: usize)
    ensures
        final(out)@ == old(out)@ + padded(n as nat, width as nat),
{
    let ghost before = out@;
    let d = decimal_digits(n);
    let fill: usize = if d.len() < width {
        width - d.len()
    } else {
        0
    };
    let mut i: usize = 0;
    while i < fill
        invariant
            i <= fill,
            out@ == before + Seq::new(i as nat, |k: int| '0'),
        decreases fill - i,
    {
        out.push('0');
        assert(out@ =~= before + Seq::new((i + 1) as nat, |k: int| '0'));
        i = i + 1;
    }
    let ghost filled = out@;
    let mut k: usize = 0;
    while k < d.len()
        invariant
            k <= d@.len(),
            out@ == filled + d@.take(k as int),
        decreases d@.len() - k,
    {
        out.push(d[k]);
        assert(out@ =~= filled + d@.take(k + 1));
        k = k + 1;
    }
    assert(d@.take(k as int) =~= d@);
    assert(out@ =~= before + padded(n as nat, width as nat));
}

/// The seconds since the epoch as `YYYY-MM-DD HH:MM:SS`.
pub open spec fn time_text(secs: i64, date: Date) -> Seq<char> {
    padded(date.year as nat, 4) + seq!['-'] + padded(date.month as nat, 2) + seq!['-'] + padded(
        date.day as nat,
        2,
    ) + seq![' '] + padded((secs / 3600 % 24) as nat, 2) + seq![':'] + padded(
        (secs / 60 % 60) as nat,
        2,
    ) + seq![':'] + padded((secs % 60) as nat, 2)
}

/// The text is that of the time: the date and the time of day, or a dash for no time.
pub open spec fn is_time_text(secs: i64, text: Seq<char>) -> bool {
    if secs <= 0 {
        text == seq!['-']
    } else {
        exists|date: Date| #[trigger]
            is_date(secs / 86_400, date) && text == time_text(secs, date)
    }
}

/// A time (UTC) as `YYYY-MM-DD HH:MM:SS`; a time that is not behind the epoch is a dash.
pub fn fmt_time(secs: i64) -> (r: String)
    ensures
        is_time_text(secs, r@),
{
    let mut out = String::new();
    if secs <= 0 {
        out.push('-');
        assert(out@ =~= seq!['-']);
        return out;
    }
    let total: u64 = secs as u64;
    let date = date_of(total / 86_400);
    push_padded(&mut out, date.year, 4);
    out.push('-');
    push_padded(&mut out, date.month, 2);
    out.push('-');
    push_padded(&mut out, date.day, 2);
    out.push(' ');
    push_padded(&mut out, total / 3600 % 24, 2);
    out.push(':');
    push_padded(&mut out, total / 60 % 60, 2);
    out.push(':');
    push_padded(&mut out, total % 60, 2);
    proof {
        assert(out@ =~= time_text(secs, date));
        assert(is_date(secs / 86_400, date));
    }
    out
}

/// The last `w` digits of `n`.
pub open spec fn last_digits(n: nat, w: nat) -> Seq<char>
    decreases w,
{
    if w == 0 {
        Seq::empty()
    } else {
        last_digits(n / 10, (w - 1) as nat).push(digit(n % 10))
    }
}

/// How many numbers have at most `w` digits.
pub open spec fn digit_range(w: nat) -> nat
    decreases w,
{
    if w == 0 {
        1
    } else {
        10 * digit_range((w - 1) as nat)
    }
}

proof fn lemma_zeros(w: nat)
    ensures
        last_digits(0, w) == Seq::new(w, |i: int| '0'),
    decreases w,
{
    if w > 0 {
        lemma_zeros((w - 1) as nat);
        assert(digit(0) == '0');
    }
    assert(last_digits(0, w) =~= Seq::new(w, |i: int| '0'));
}

proof fn lemma_padded(n: nat, w: nat)
    requires
        n < digit_range(w),
        w > 0,
    ensures
        padded(n, w) == last_digits(n, w),
        decimal(n).len() <= w,
    decreases w,
{
    let v = (w - 1) as nat;
    if n < 10 {
        lemma_zeros(v);
        assert(padded(n, w) =~= Seq::new(v, |i: int| '0').push(digit(n)));
    } else {
        assert(v > 0) by {
            reveal_with_fuel(digit_range, 2);
        }
        lemma_padded(n / 10, v);
        assert(padded(n, w) =~= padded(n / 10, v).push(digit(n % 10)));
    }
}

proof fn lemma_digits_len(n: nat, w: nat)
    ensures
        last_digits(n, w).len() == w,
    decreases w,
{
    if w > 0 {
        lemma_digits_len(n / 10, (w - 1) as nat);
    }
}

proof fn lemma_digits_order(n: nat, m: nat, w: nat)
    requires
        n < m < digit_range(w),
    ensures
        crate::order::lex_before(
            last_digits(n, w),
            last_digits(m, w),
            crate::order::char_rank(),
        ),
    decreases w,
{
    let v = (w - 1) as nat;
    let rank = crate::order::char_rank();
    let a = last_digits(n / 10, v);
    let b = last_digits(m / 10, v);
    let x = seq![digit(n % 10)];
    let y = seq![digit(m % 10)];
    lemma_digits_len(n / 10, v);
    lemma_digits_len(m / 10, v);
    assert(last_digits(n, w) =~= Seq::empty() + a + x);
    assert(last_digits(m, w) =~= Seq::empty() + b + y);
    if n / 10 < m / 10 {
        lemma_digits_order(n / 10, m / 10, v);
        crate::order::lemma_lex_field(Seq::empty(), a, b, x, y, rank);
    } else {
        assert(n / 10 == m / 10);
        assert(n % 10 < m % 10);
        assert(rank(x[0]) < rank(y[0]));
        assert(crate::order::lex_before(x, y, rank));
        assert(last_digits(n, w) =~= a + x + Seq::empty());
        assert(last_digits(m, w) =~= a + y + Seq::empty());
        crate::order::lemma_lex_field(a, x, y, Seq::empty(), Seq::empty(), rank);
    }
}

/// Numbers with as many digits are ordered as their texts are.
proof fn lemma_padded_order(n: nat, m: nat, w: nat)
    requires
        n < digit_range(w),
        m < digit_range(w),
        w > 0,
    ensures
        padded(n, w).len() == w,
        padded(m, w).len() == w,
        n < m ==> crate::order::lex_before(
            padded(n, w),
            padded(m, w),
            crate::order::char_rank(),
        ),
{
    lemma_padded(n, w);
    lemma_padded(m, w);
    lemma_digits_len(n, w);
    lemma_digits_len(m, w);
    if n < m {
        lemma_digits_order(n, m, w);
    }
}

/// Of two dates in order the first one has the earlier year, month or day.
proof fn lemma_date_order(days: int, later: int, a: Date, b: Date)
    requires
        is_date(days, a),
        is_date(later, b),
        days < later,
    ensures
        a.year < b.year || (a.year == b.year && (a.month < b.month || (a.month == b.month && a.day
            < b.day))),
{
    lemma_months(a.year as int);
    lemma_months(b.year as int);
    if b.year < a.year {
        lemma_years_grow(b.year as int + 1, a.year as int);
        years_follow_each_other(b.year as int);
    }
}

/// The date of a day before the year 10000.
proof fn lemma_four_digits(days: int, date: Date)
    requires
        is_date(days, date),
        days < 2_932_897,
    ensures
        date.year < 10_000,
        date.month < 100,
        date.day < 100,
{
    lemma_months(date.year as int);
    if date.year >= 10_000 {
        lemma_years_grow(10_000, date.year as int);
    }
}

/// Up to the end of the year 9999 the texts of times are ordered as the times are.
pub proof fn time_texts_are_ordered(a: i64, b: i64, x: Seq<char>, y: Seq<char>)
    requires
        0 < a < b < 253_402_300_800,
        is_time_text(a, x),
        is_time_text(b, y),
    ensures
        crate::order::lex_before(x, y, crate::order::char_rank()),
{
    let rank = crate::order::char_rank();
    let d = choose|date: Date| #[trigger] is_date(a / 86_400, date) && x == time_text(a, date);
    let e = choose|date: Date| #[trigger] is_date(b / 86_400, date) && y == time_text(b, date);
    lemma_four_digits(a / 86_400, d);
    lemma_four_digits(b / 86_400, e);
    reveal_with_fuel(digit_range, 5);
    assert(digit_range(4) == 10_000 && digit_range(2) == 100);
    let (ah, am, az) = ((a / 3600 % 24) as nat, (a / 60 % 60) as nat, (a % 60) as nat);
    let (bh, bm, bz) = ((b / 3600 % 24) as nat, (b / 60 % 60) as nat, (b % 60) as nat);
    lemma_padded_order(d.year as nat, e.year as nat, 4);
    lemma_padded_order(d.month as nat, e.month as nat, 2);
    lemma_padded_order(d.day as nat, e.day as nat, 2);
    lemma_padded_order(ah, bh, 2);
    lemma_padded_order(am, bm, 2);
    lemma_padded_order(az, bz, 2);
    let x0 = padded(d.year as nat, 4);
    let y0 = padded(e.year as nat, 4);
    let x1 = padded(d.month as nat, 2);
    let y1 = padded(e.month as nat, 2);
    let x2 = padded(d.day as nat, 2);
    let y2 = padded(e.day as nat, 2);
    let x3 = padded(ah, 2);
    let y3 = padded(bh, 2);
    let x4 = padded(am, 2);
    let y4 = padded(bm, 2);
    let x5 = padded(az, 2);
    let y5 = padded(bz, 2);
    let none = Seq::<char>::empty();
    if a / 86_400 < b / 86_400 {
        lemma_date_order(a / 86_400, b / 86_400, d, e);
    } else {
        dates_are_unique(a / 86_400, d, e);
        lemma_clock(a as int, b as int);
    }
    if d.year != e.year {
        let p = x.skip(4);
        let q = y.skip(4);
        assert(x =~= none + x0 + p);
        assert(y =~= none + y0 + q);
        crate::order::lemma_lex_field(none, x0, y0, p, q, rank);
    } else if d.month != e.month {
        let f = x.take(5);
        assert(x =~= f + x1 + x.skip(7));
        assert(y =~= f + y1 + y.skip(7));
        crate::order::lemma_lex_field(f, x1, y1, x.skip(7), y.skip(7), rank);
    } else if d.day != e.day {
        let f = x.take(8);
        assert(x =~= f + x2 + x.skip(10));
        assert(y =~= f + y2 + y.skip(10));
        crate::order::lemma_lex_field(f, x2, y2, x.skip(10), y.skip(10), rank);
    } else if ah != bh {
        let f = x.take(11);
        assert(x =~= f + x3 + x.skip(13));
        assert(y =~= f + y3 + y.skip(13));
        crate::order::lemma_lex_field(f, x3, y3, x.skip(13), y.skip(13), rank);
    } else if am != bm {
        let f = x.take(14);
        assert(x =~= f + x4 + x.skip(16));
        assert(y =~= f + y4 + y.skip(16));
        crate::order::lemma_lex_field(f, x4, y4, x.skip(16), y.skip(16), rank);
    } else {
        let f = x.take(17);
        assert(x =~= f + x5 + none);
        assert(y =~= f + y5 + none);
        crate::order::lemma_lex_field(f, x5, y5, none, none, rank);
    }
}

/// Two times of one day in order differ first in the hour, the minute or the second.
proof fn lemma_clock(a: int, b: int)
    requires
        0 <= a < b,
        a / 86_400 == b / 86_400,
    ensures
        ({
            let (ah, am, az) = (a / 3600 % 24, a / 60 % 60, a % 60);
            let (bh, bm, bz) = (b / 3600 % 24, b / 60 % 60, b % 60);
            ah < bh || (ah == bh && (am < bm || (am == bm && az < bz)))
        }),
{
    lemma_parts(a);
    lemma_parts(b);
}

/// A time is made of its days, hours, minutes and seconds.
proof fn lemma_parts(a: int)
    requires
        0 <= a,
    ensures
        a == 60 * (60 * (24 * (a / 86_400) + a / 3600 % 24) + a / 60 % 60) + a % 60,
        0 <= a / 3600 % 24 < 24,
        0 <= a / 60 % 60 < 60,
        0 <= a % 60 < 60,
{
    vstd::arithmetic::div_mod::lemma_div_denominator(a, 60, 60);
    vstd::arithmetic::div_mod::lemma_div_denominator(a, 3600, 24);
    let t = a / 60;
    let u = t / 60;
    assert(a / 3600 == u);
    assert(a / 86_400 == u / 24);
    assert(a == 60 * t + a % 60);
    assert(t == 60 * u + t % 60);
    assert(u == 24 * (u / 24) + u % 24);
}

/// Days follow each other as in the calendar: behind the last day of a month comes the first of
/// the next, behind the last of December the first of January of the next year, and behind every
/// other day the next one of its month. The count begins with the first of January 1970.
pub proof fn days_follow_each_other(days: int, a: Date, b: Date)
    requires
        is_date(days, a),
        is_date(days + 1, b),
        a.year < u64::MAX,
    ensures
        ({
            let y = a.year;
            let leap = y % 4 == 0 && (y % 100 != 0 || y % 400 == 0);
            let last = if a.month == 2 {
                if leap {
                    29int
                } else {
                    28
                }
            } else if a.month == 4 || a.month == 6 || a.month == 9 || a.month == 11 {
                30
            } else {
                31
            };
            &&& 1 <= a.month <= 12 && 1 <= a.day <= last
            &&& a.day < last ==> b == (Date { day: (a.day + 1) as u64, ..a })
            &&& a.day == last && a.month < 12 ==> b == (Date {
                month: (a.month + 1) as u64,
                day: 1,
                ..a
            })
            &&& a.day == last && a.month == 12 ==> b == (Date {
                year: (a.year + 1) as u64,
                month: 1,
                day: 1,
            })
        }),
        is_date(0, (Date { year: 1970, month: 1, day: 1 })),
{
    let y = a.year as int;
    let m = a.month as int;
    years_follow_each_other(y);
    years_follow_each_other(1969);
    if a.day < month_days(y, m) {
        dates_are_unique(days + 1, b, (Date { day: (a.day + 1) as u64, ..a }));
    } else if m < 12 {
        let c = Date { month: (a.month + 1) as u64, day: 1, ..a };
        assert(days_before_month(y, m + 1) == days_before_month(y, m) + month_days(y, m));
        dates_are_unique(days + 1, b, c);
    } else {
        let c = Date { year: (a.year + 1) as u64, month: 1, day: 1 };
        assert(days_before_month(y + 1, 1) == 0);
        dates_are_unique(days + 1, b, c);
    }
}

/// Numbers are written in ten digits, and filled up with zeros in front.
pub proof fn numbers_are_written_in_digits(n: nat, d: nat, width: nat)
    requires
        d < 10,
    ensures
        decimal(d) == seq![(48 + d) as char],
        n > 0 ==> decimal(10 * n + d) == decimal(n) + seq![(48 + d) as char],
        decimal(n).len() >= width ==> padded(n, width) == decimal(n),
        decimal(n).len() < width ==> padded(n, width).len() == width && padded(n, width).skip(
            width - decimal(n).len(),
        ) == decimal(n) && forall|i: int|
            0 <= i < width - decimal(n).len() ==> padded(n, width)[i] == '0',
{
    if n > 0 {
        assert((10 * n + d) / 10 == n && (10 * n + d) % 10 == d);
        assert(decimal(10 * n + d) =~= decimal(n) + seq![(48 + d) as char]);
    }
    if decimal(n).len() >= width {
        assert(padded(n, width) =~= decimal(n));
    } else {
        assert(padded(n, width).skip(width - decimal(n).len()) =~= decimal(n));
    }
}

/// The text of a time is its date and its time of day, from the year down to the second; times
/// up to the epoch have a dash for it.
pub proof fn time_text_tells_date_and_clock(
    secs: i64,
    text: Seq<char>,
    days: int,
    date: Date,
    h: int,
    m: int,
    s: int,
)
    requires
        is_time_text(secs, text),
        0 <= h < 24,
        0 <= m < 60,
        0 <= s < 60,
        secs == 86_400 * days + 3600 * h + 60 * m + s,
        is_date(days, date),
    ensures
        secs <= 0 ==> text == seq!['-'],
        secs > 0 ==> text == padded(date.year as nat, 4) + seq!['-'] + padded(date.month as nat, 2)
            + seq!['-'] + padded(date.day as nat, 2) + seq![' '] + padded(h as nat, 2) + seq![':']
            + padded(m as nat, 2) + seq![':'] + padded(s as nat, 2),
{
    if secs > 0 {
        lemma_time_parts(secs as int, days, h, m, s);
        assert(exists|d: Date| #[trigger]
            is_date(secs / 86_400, d) && text == time_text(secs, d));
        let d = choose|d: Date| #[trigger] is_date(secs / 86_400, d) && text == time_text(secs, d);
        assert(is_date(days, d));
        dates_are_unique(days, d, date);
        assert(text == time_text(secs, date));
    }
}

proof fn lemma_time_parts(secs: int, days: int, h: int, m: int, s: int)
    requires
        0 <= h < 24,
        0 <= m < 60,
        0 <= s < 60,
        secs == 86_400 * days + 3600 * h + 60 * m + s,
    ensures
        secs / 86_400 == days,
        secs / 3600 % 24 == h,
        secs / 60 % 60 == m,
        secs % 60 == s,
{
    assert(secs / 3600 == 24 * days + h);
    assert(secs / 60 == 60 * (24 * days + h) + m);
}

} // verus!
