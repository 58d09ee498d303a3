//! Civil dates and ages: what `jiff` reads and writes, held as plain numbers.
use vstd::prelude::*;
use vstd::string::*;

use crate::text::digit;

verus! {

/// A date and time of day without a time zone.
#[derive(Clone, Copy, PartialEq, Eq, Debug, Structural)]
pub struct DateTime {
    pub year: i16,
    pub month: i8,
    pub day: i8,
    pub hour: i8,
    pub minute: i8,
    pub second: i8,
    pub nano: i32,
}

/// Whether a year has a 29th of February.
pub open spec fn leap(year: int) -> bool {
    year % 4 == 0 && (year % 100 != 0 || year % 400 == 0)
}

/// The number of days in a month.
pub open spec fn days_in(year: int, month: int) -> int {
    if month == 2 {
        if leap(year) {
            29
        } else {
            28
        }
    } else if month == 4 || month == 6 || month == 9 || month == 11 {
        30
    } else {
        31
    }
}

impl DateTime {
    /// A date that the calendar has.
    pub open spec fn valid(self) -> bool {
        &&& -9999 <= self.year <= 9999
        &&& 1 <= self.month <= 12
        &&& 1 <= self.day <= days_in(self.year as int, self.month as int)
        &&& 0 <= self.hour <= 23
        &&& 0 <= self.minute <= 59
        &&& 0 <= self.second <= 59
        &&& 0 <= self.nano <= 999_999_999
    }

    /// The same date to the second.
    pub open spec fn whole(self) -> DateTime {
        DateTime { nano: 0, ..self }
    }

    /// The order of time.
    pub open spec fn earlier(self, other: DateTime) -> bool {
        ||| self.year < other.year
        ||| self.year == other.year && self.month < other.month
        ||| self.year == other.year && self.month == other.month && self.day < other.day
        ||| self.year == other.year && self.month == other.month && self.day == other.day
            && self.hour < other.hour
        ||| self.year == other.year && self.month == other.month && self.day == other.day
            && self.hour == other.hour && self.minute < other.minute
        ||| self.year == other.year && self.month == other.month && self.day == other.day
            && self.hour == other.hour && self.minute == other.minute && self.second < other.second
        ||| self.year == other.year && self.month == other.month && self.day == other.day
            && self.hour == other.hour && self.minute == other.minute && self.second == other.second
            && self.nano < other.nano
    }

    /// Whether this date comes before `other`.
    pub fn is_before(&self, other: &DateTime) -> (r: bool)
        ensures
            r == self.earlier(*other),
    {
        if self.year != other.year {
            self.year < other.year
        } else if self.month != other.month {
            self.month < other.month
        } else if self.day != other.day {
            self.day < other.day
        } else if self.hour != other.hour {
            self.hour < other.hour
        } else if self.minute != other.minute {
            self.minute < other.minute
        } else if self.second != other.second {
            self.second < other.second
        } else {
            self.nano < other.nano
        }
    }
}

/// Time is a strict total order: of two dates one is earlier or they are the
/// same, never both, and earlier than an earlier date is earlier.
pub proof fn time_is_ordered(a: DateTime, b: DateTime, c: DateTime)
    ensures
        !a.earlier(a),
        a.earlier(b) ==> !b.earlier(a),
        a.earlier(b) || b.earlier(a) || a == b,
        a.earlier(b) && b.earlier(c) ==> a.earlier(c),
{
}

/// The days before the first of January of a year, counted from that of the
/// year 0.
pub open spec fn days_before_year(year: int) -> int {
    365 * year + (year + 3) / 4 - (year + 99) / 100 + (year + 399) / 400
}

/// The days of a year before the first of a month.
pub open spec fn days_before_month(year: int, month: int) -> int {
    let common = if month <= 1 {
        0int
    } else if month == 2 {
        31
    } else if month == 3 {
        59
    } else if month == 4 {
        90
    } else if month == 5 {
        120
    } else if month == 6 {
        151
    } else if month == 7 {
        181
    } else if month == 8 {
        212
    } else if month == 9 {
        243
    } else if month == 10 {
        273
    } else if month == 11 {
        304
    } else if month == 12 {
        334
    } else {
        365
    };
    if month > 2 {
        common + days_before_year(year + 1) - days_before_year(year) - 365
    } else {
        common
    }
}

/// The nanoseconds from the start of the year 0 to a date.
pub open spec fn instant(d: DateTime) -> int {
    let days = days_before_year(d.year as int) + days_before_month(d.year as int, d.month as int)
        + d.day - 1;
    (((days * 24 + d.hour) * 60 + d.minute) * 60 + d.second) * 1_000_000_000 + d.nano
}

proof fn year_length(year: int)
    ensures
        days_before_year(year + 1) - days_before_year(year) == (if leap(year) {
            366int
        } else {
            365
        }),
{
    assert((year + 4) / 4 - (year + 3) / 4 == (if year % 4 == 0 {
        1int
    } else {
        0
    }));
    assert((year + 100) / 100 - (year + 99) / 100 == (if year % 100 == 0 {
        1int
    } else {
        0
    }));
    assert((year + 400) / 400 - (year + 399) / 400 == (if year % 400 == 0 {
        1int
    } else {
        0
    }));
}

proof fn years_add_up(a: int, b: int)
    requires
        a <= b,
    ensures
        days_before_year(a) + 365 * (b - a) <= days_before_year(b),
    decreases b - a,
{
    if a < b {
        years_add_up(a, b - 1);
        year_length(b - 1);
    }
}

/// The months of the calendar follow one another without a gap: a month has as
/// many days as lie between its first and the first of the next, and December
/// ends where the next year begins. A year has 365 days, or 366.
pub proof fn the_months_fill_the_year(year: int, month: int)
    requires
        1 <= month <= 12,
    ensures
        days_in(year, month) == days_before_month(year, month + 1) - days_before_month(year, month),
        days_before_year(year) + days_before_month(year, 13) == days_before_year(year + 1),
        days_before_year(year + 1) - days_before_year(year) == 365 || days_before_year(year + 1)
            - days_before_year(year) == 366,
{
    year_length(year);
}

/// One date is earlier than another just where less time has passed at it. So
/// the year counts before the month, the month before the day, and the day
/// before the time of day.
pub proof fn earlier_is_less_time(a: DateTime, b: DateTime)
    requires
        a.valid(),
        b.valid(),
    ensures
        a.earlier(b) <==> instant(a) < instant(b),
        a == b <==> instant(a) == instant(b),
{
    if a.earlier(b) {
        earlier_has_less(a, b);
    } else if b.earlier(a) {
        earlier_has_less(b, a);
    } else {
        time_is_ordered(a, b, a);
    }
}

proof fn earlier_has_less(a: DateTime, b: DateTime)
    requires
        a.valid(),
        b.valid(),
        a.earlier(b),
    ensures
        instant(a) < instant(b),
{
    let (ay, am, by, bm) = (a.year as int, a.month as int, b.year as int, b.month as int);
    the_months_fill_the_year(ay, am);
    the_months_fill_the_year(by, bm);
    year_length(ay);
    year_length(by);
    let x = days_before_year(ay) + days_before_month(ay, am) + a.day - 1;
    let y = days_before_year(by) + days_before_month(by, bm) + b.day - 1;
    assert(0 <= days_before_month(by, bm));
    assert(days_before_month(ay, am) + a.day - 1 < days_before_year(ay + 1) - days_before_year(ay));
    if ay < by {
        years_add_up(ay + 1, by);
        assert(x < y);
    } else if am < bm {
        assert(days_before_month(ay, am + 1) <= days_before_month(ay, bm));
        assert(x < y);
    } else {
        assert(x <= y);
    }
}

// ---------------------------------------------------------------------------
// Writing dates
// ---------------------------------------------------------------------------

/// Two decimal digits.
pub open spec fn two(n: int) -> Seq<char> {
    seq![digit(n / 10), digit(n % 10)]
}

/// A year in four places; the sign of a negative year takes the first of them.
pub open spec fn year_text(y: int) -> Seq<char> {
    if y >= 0 {
        two(y / 100) + two(y % 100)
    } else if -y >= 1000 {
        seq!['-'] + two(-y / 100) + two(-y % 100)
    } else {
        seq!['-', digit(-y / 100)] + two(-y % 100)
    }
}

/// What a conversion letter stands for.
pub open spec fn field(letter: char, d: DateTime) -> Seq<char> {
    if letter == 'Y' {
        year_text(d.year as int)
    } else if letter == 'm' {
        two(d.month as int)
    } else if letter == 'd' {
        two(d.day as int)
    } else if letter == 'H' {
        two(d.hour as int)
    } else if letter == 'M' {
        two(d.minute as int)
    } else {
        two(d.second as int)
    }
}

/// A conversion letter that `field` knows.
pub open spec fn known_letter(c: char) -> bool {
    c == 'Y' || c == 'm' || c == 'd' || c == 'H' || c == 'M' || c == 'S'
}

/// A format made of ASCII text and known conversions.
#[verifier::opaque]
pub open spec fn plain_format(fmt: Seq<char>) -> bool
    decreases fmt.len(),
{
    if fmt.len() == 0 {
        true
    } else if fmt[0] == '%' {
        fmt.len() >= 2 && known_letter(fmt[1]) && plain_format(fmt.skip(2))
    } else {
        (fmt[0] as u32) < 0x80 && plain_format(fmt.skip(1))
    }
}

/// A date written by a format.
#[verifier::opaque]
pub open spec fn formatted(fmt: Seq<char>, d: DateTime) -> Seq<char>
    decreases fmt.len(),
{
    if fmt.len() == 0 {
        Seq::empty()
    } else if fmt[0] == '%' && fmt.len() >= 2 {
        field(fmt[1], d) + formatted(fmt.skip(2), d)
    } else {
        seq![fmt[0]] + formatted(fmt.skip(1), d)
    }
}

/// `jiff::civil::DateTime::strftime` for the conversions `%Y %m %d %H %M %S`:
/// the year in four places, the others in two, filled with zeros, and every
/// other character as it stands.
#[verifier::external_body]
pub(crate) fn strftime(d: &DateTime, fmt: &str) -> (s: String)
    requires
        d.valid(),
        plain_format(fmt@),
    ensures
        s@ == formatted(fmt@, *d),
{
    jiff::civil::date(d.year, d.month, d.day)
        .at(d.hour, d.minute, d.second, d.nano)
        .strftime(fmt)
        .to_string()
}

/// `YYYY-MM-DD`, a separator, `hh:mm:ss`.
pub open spec fn stamp(sep: char, d: DateTime) -> Seq<char> {
    year_text(d.year as int) + seq!['-'] + two(d.month as int) + seq!['-'] + two(d.day as int)
        + seq![sep] + two(d.hour as int) + seq![':'] + two(d.minute as int) + seq![':'] + two(
        d.second as int,
    )
}

/// The form a `DeletionDate` is written in.
pub open spec fn dashed(d: DateTime) -> Seq<char> {
    stamp('T', d)
}

/// Only visible ASCII characters, and spaces.
pub open spec fn visible(s: Seq<char>) -> bool {
    forall|i: int| 0 <= i < s.len() ==> ' ' <= #[trigger] s[i] <= '~'
}

proof fn two_are_visible(n: int)
    requires
        0 <= n < 100,
    ensures
        visible(two(n)),
{
    let t = two(n);
    assert forall|i: int| 0 <= i < t.len() implies ' ' <= #[trigger] t[i] <= '~' by {
        assert(i == 0 || i == 1);
    }
}

proof fn visible_joined(a: Seq<char>, b: Seq<char>)
    requires
        visible(a),
        visible(b),
    ensures
        visible(a + b),
{
    let s = a + b;
    assert forall|i: int| 0 <= i < s.len() implies ' ' <= #[trigger] s[i] <= '~' by {
        if i < a.len() {
            assert(s[i] == a[i]);
        } else {
            assert(s[i] == b[i - a.len()]);
        }
    }
}

proof fn one_is_visible(c: char)
    requires
        ' ' <= c <= '~',
    ensures
        visible(seq![c]),
{
}

proof fn year_is_visible(y: int)
    requires
        -9999 <= y <= 9999,
    ensures
        visible(year_text(y)),
{
    one_is_visible('-');
    if y >= 0 {
        two_are_visible(y / 100);
        two_are_visible(y % 100);
        visible_joined(two(y / 100), two(y % 100));
    } else if -y >= 1000 {
        two_are_visible(-y / 100);
        two_are_visible(-y % 100);
        visible_joined(seq!['-'], two(-y / 100));
        visible_joined(seq!['-'] + two(-y / 100), two(-y % 100));
    } else {
        two_are_visible(-y % 100);
        let s = seq!['-', digit(-y / 100)];
        assert forall|i: int| 0 <= i < s.len() implies ' ' <= #[trigger] s[i] <= '~' by {
            assert(i == 0 || i == 1);
        }
        visible_joined(s, two(-y % 100));
    }
}

/// A date that is written out holds no control character.
pub proof fn stamp_is_visible(sep: char, d: DateTime)
    requires
        d.valid(),
        ' ' <= sep <= '~',
    ensures
        visible(stamp(sep, d)),
{
    year_is_visible(d.year as int);
    two_are_visible(d.month as int);
    two_are_visible(d.day as int);
    two_are_visible(d.hour as int);
    two_are_visible(d.minute as int);
    two_are_visible(d.second as int);
    one_is_visible('-');
    one_is_visible(':');
    one_is_visible(sep);
    let s1 = year_text(d.year as int) + seq!['-'];
    visible_joined(year_text(d.year as int), seq!['-']);
    let s2 = s1 + two(d.month as int);
    visible_joined(s1, two(d.month as int));
    let s3 = s2 + seq!['-'];
    visible_joined(s2, seq!['-']);
    let s4 = s3 + two(d.day as int);
    visible_joined(s3, two(d.day as int));
    let s5 = s4 + seq![sep];
    visible_joined(s4, seq![sep]);
    let s6 = s5 + two(d.hour as int);
    visible_joined(s5, two(d.hour as int));
    let s7 = s6 + seq![':'];
    visible_joined(s6, seq![':']);
    let s8 = s7 + two(d.minute as int);
    visible_joined(s7, two(d.minute as int));
    let s9 = s8 + seq![':'];
    visible_joined(s8, seq![':']);
    visible_joined(s9, two(d.second as int));
}

/// The number that the digits of `s` from the `i`th to before the `j`th write.
pub open spec fn written(s: Seq<char>, i: int, j: int) -> int
    decreases j - i,
{
    if j <= i {
        0
    } else {
        10 * written(s, i, j - 1) + (s[j - 1] as u32 - '0' as u32)
    }
}

/// A date that is written out can be read off at fixed places: four digits are
/// the year, two each the month, the day, the hour, the minute and the second.
/// The parts of a second are left out.
pub proof fn a_stamp_is_read_off(sep: char, d: DateTime)
    requires
        d.valid(),
        d.year >= 0,
    ensures
        ({
            let s = stamp(sep, d);
            &&& s.len() == 19
            &&& written(s, 0, 4) == d.year
            &&& s[4] == '-'
            &&& written(s, 5, 7) == d.month
            &&& s[7] == '-'
            &&& written(s, 8, 10) == d.day
            &&& s[10] == sep
            &&& written(s, 11, 13) == d.hour
            &&& s[13] == ':'
            &&& written(s, 14, 16) == d.minute
            &&& s[16] == ':'
            &&& written(s, 17, 19) == d.second
        }),
        d.whole() == (DateTime { nano: 0, ..d }),
        dashed(d) == stamp('T', d),
{
    let s = stamp(sep, d);
    let y = d.year as int;
    reveal_with_fuel(written, 5);
    assert(s[0] == digit(y / 100 / 10) && s[1] == digit(y / 100 % 10));
    assert(s[2] == digit(y % 100 / 10) && s[3] == digit(y % 100 % 10));
}

proof fn format_conversion(letter: char, rest: Seq<char>, d: DateTime)
    requires
        known_letter(letter),
        plain_format(rest),
    ensures
        plain_format(seq!['%', letter] + rest),
        formatted(seq!['%', letter] + rest, d) == field(letter, d) + formatted(rest, d),
{
    reveal(plain_format);
    reveal(formatted);
    let f = seq!['%', letter] + rest;
    assert(f.skip(2) =~= rest);
}

proof fn format_literal(c: char, rest: Seq<char>, d: DateTime)
    requires
        c != '%',
        (c as u32) < 0x80,
        plain_format(rest),
    ensures
        plain_format(seq![c] + rest),
        formatted(seq![c] + rest, d) == seq![c] + formatted(rest, d),
{
    reveal(plain_format);
    reveal(formatted);
    let f = seq![c] + rest;
    assert(f.skip(1) =~= rest);
}

proof fn long_format(fmt: Seq<char>, sep: char, d: DateTime)
    requires
        fmt == seq!['%', 'Y', '-', '%', 'm', '-', '%', 'd', sep, '%', 'H', ':', '%', 'M', ':', '%', 'S'],
        sep == 'T' || sep == ' ',
    ensures
        plain_format(fmt),
        formatted(fmt, d) == stamp(sep, d),
{
    let r0 = Seq::<char>::empty();
    assert(plain_format(r0) && formatted(r0, d) =~= r0) by {
        reveal(plain_format);
        reveal(formatted);
    }
    let r1 = seq!['%', 'S'] + r0;
    format_conversion('S', r0, d);
    let r2 = seq![':'] + r1;
    format_literal(':', r1, d);
    let r3 = seq!['%', 'M'] + r2;
    format_conversion('M', r2, d);
    let r4 = seq![':'] + r3;
    format_literal(':', r3, d);
    let r5 = seq!['%', 'H'] + r4;
    format_conversion('H', r4, d);
    let r6 = seq![sep] + r5;
    format_literal(sep, r5, d);
    let r7 = seq!['%', 'd'] + r6;
    format_conversion('d', r6, d);
    let r8 = seq!['-'] + r7;
    format_literal('-', r7, d);
    let r9 = seq!['%', 'm'] + r8;
    format_conversion('m', r8, d);
    let r10 = seq!['-'] + r9;
    format_literal('-', r9, d);
    let r11 = seq!['%', 'Y'] + r10;
    format_conversion('Y', r10, d);
    assert(r11 =~= fmt);
    assert(formatted(r11, d) =~= stamp(sep, d));
}

/// Writes a date as a `DeletionDate`, to the second.
pub fn write_dashed(d: &DateTime) -> (s: String)
    requires
        d.valid(),
    ensures
        s@ == dashed(*d),
{
    proof {
        reveal_strlit("%Y-%m-%dT%H:%M:%S");
        assert("%Y-%m-%dT%H:%M:%S"@ =~= seq![
            '%', 'Y', '-', '%', 'm', '-', '%', 'd', 'T', '%', 'H', ':', '%', 'M', ':', '%', 'S',
        ]);
        long_format("%Y-%m-%dT%H:%M:%S"@, 'T', *d);
    }
    strftime(d, "%Y-%m-%dT%H:%M:%S")
}

/// Writes a date for a person: a space between day and time.
pub fn write_spaced(d: &DateTime) -> (s: String)
    requires
        d.valid(),
    ensures
        s@ == stamp(' ', *d),
{
    proof {
        reveal_strlit("%Y-%m-%d %H:%M:%S");
        assert("%Y-%m-%d %H:%M:%S"@ =~= seq![
            '%', 'Y', '-', '%', 'm', '-', '%', 'd', ' ', '%', 'H', ':', '%', 'M', ':', '%', 'S',
        ]);
        long_format("%Y-%m-%d %H:%M:%S"@, ' ', *d);
    }
    strftime(d, "%Y-%m-%d %H:%M:%S")
}

// ---------------------------------------------------------------------------
// Reading dates
// ---------------------------------------------------------------------------

/// The date `jiff` reads from a text in its own civil format.
pub uninterp spec fn civil_reading(s: Seq<char>) -> Option<DateTime>;

/// The date `jiff` reads from a text by a `strptime` format.
pub uninterp spec fn strptime_reading(fmt: Seq<char>, s: Seq<char>) -> Option<DateTime>;

/// `str::parse` into `jiff::civil::DateTime`, as `civil_reading` names it. A
/// date that comes back is a date of the calendar. Of a text that is
/// `YYYY-MM-DDThh:mm:ss` for a year from 0 on, it gives just that date. What
/// else it accepts is left to the name.
#[verifier::external_body]
pub(crate) fn read_civil(s: &str) -> (r: Option<DateTime>)
    ensures
        r == civil_reading(s@),
        r matches Some(d) ==> d.valid(),
        forall|d: DateTime|
            #![trigger dashed(d)]
            d.valid() && d.year >= 0 && s@ == dashed(d) ==> r == Some(d.whole()),
{
    s.parse::<jiff::civil::DateTime>().ok().map(|t| DateTime {
        year: t.year(),
        month: t.month(),
        day: t.day(),
        hour: t.hour(),
        minute: t.minute(),
        second: t.second(),
        nano: t.subsec_nanosecond(),
    })
}

/// `jiff::civil::DateTime::strptime`, as `strptime_reading` names it. A date
/// that comes back is a date of the calendar.
#[verifier::external_body]
pub(crate) fn read_by_format(fmt: &str, s: &str) -> (r: Option<DateTime>)
    ensures
        r == strptime_reading(fmt@, s@),
        r matches Some(d) ==> d.valid(),
{
    jiff::civil::DateTime::strptime(fmt, s).ok().map(|t| DateTime {
        year: t.year(),
        month: t.month(),
        day: t.day(),
        hour: t.hour(),
        minute: t.minute(),
        second: t.second(),
        nano: t.subsec_nanosecond(),
    })
}

// ---------------------------------------------------------------------------
// Ages
// ---------------------------------------------------------------------------

/// A span of time, unit by unit.
#[derive(Clone, Copy, PartialEq, Eq, Debug, Structural)]
pub struct Age {
    pub negative: bool,
    pub years: i16,
    pub months: i32,
    pub weeks: i32,
    pub days: i32,
    pub hours: i32,
    pub minutes: i64,
    pub seconds: i64,
    pub milliseconds: i64,
    pub microseconds: i64,
    pub nanoseconds: i64,
}

/// The span `jiff` reads from a text, or the text of its error.
pub uninterp spec fn span_reading(s: Seq<char>) -> Result<Age, Seq<char>>;

/// `str::parse` into `jiff::Span`, as `span_reading` names it: the span unit
/// by unit with its sign, or what the error says.
#[verifier::external_body]
pub(crate) fn read_span(s: &str) -> (r: Result<Age, String>)
    ensures
        match r {
            Ok(a) => span_reading(s@) == Ok::<Age, Seq<char>>(a),
            Err(e) => span_reading(s@) == Err::<Age, Seq<char>>(e@),
        },
{
    let p = s.parse::<jiff::Span>().map_err(|e| e.to_string())?;
    Ok(Age {
        negative: p.is_negative(),
        years: p.get_years(),
        months: p.get_months(),
        weeks: p.get_weeks(),
        days: p.get_days(),
        hours: p.get_hours(),
        minutes: p.get_minutes(),
        seconds: p.get_seconds(),
        milliseconds: p.get_milliseconds(),
        microseconds: p.get_microseconds(),
        nanoseconds: p.get_nanoseconds(),
    })
}

} // verus!
