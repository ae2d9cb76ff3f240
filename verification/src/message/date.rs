//! The date of a message.

use vstd::prelude::*;

use crate::text;

verus! {

/// A point in time as a calendar and a clock show it. The offset from UTC is in
/// seconds.
#[derive(Clone, Copy, Debug, PartialEq, Eq, Structural)]
pub struct CalendarTime {
    pub year: u32,
    pub month: u8,
    pub day: u8,
    pub hour: u8,
    pub minute: u8,
    pub second: u8,
    pub utc_offset: i32,
}

/// The date of a message: as the message writes it, and in the time zone of the
/// user, where it has a place in that.
#[derive(Clone, Copy, Debug, PartialEq, Eq, Structural)]
pub struct DateTime {
    pub written: CalendarTime,
    pub local: Option<CalendarTime>,
}

/// A number without its sign.
pub open spec fn magnitude(n: int) -> nat {
    if n < 0 {
        (-n) as nat
    } else {
        n as nat
    }
}

/// An offset from UTC as a sign, two digits of hours and two of minutes.
pub open spec fn offset_text(utc_offset: int) -> Seq<char> {
    seq![
        if utc_offset < 0 {
            '-'
        } else {
            '+'
        },
    ] + text::two_digits(magnitude(utc_offset) / 3600) + text::two_digits(
        magnitude(utc_offset) / 60 % 60,
    )
}

/// The date, the time and the offset, as in `2026-07-30 18:06:08 +0200`.
pub open spec fn time_text(t: CalendarTime) -> Seq<char> {
    text::decimal(t.year as nat) + seq!['-'] + text::two_digits(t.month as nat) + seq!['-']
        + text::two_digits(t.day as nat) + seq![' '] + text::two_digits(t.hour as nat) + seq![':']
        + text::two_digits(t.minute as nat) + seq![':'] + text::two_digits(t.second as nat) + seq![
        ' ',
    ] + offset_text(t.utc_offset as int)
}

/// The date in the time zone of the user, or nothing where there is none.
pub open spec fn local_text(date: Option<DateTime>) -> Seq<char> {
    match date {
        Some(DateTime { local: Some(local), .. }) => time_text(local),
        _ => Seq::empty(),
    }
}

impl CalendarTime {
    /// The date, the time and the offset, as in `2026-07-30 18:06:08 +0200`.
    pub fn to_string(&self) -> (r: String)
        ensures
            r@ == time_text(*self),
    {
        let mut out = String::new();
        text::push_decimal(&mut out, self.year as u64);
        out.push('-');
        text::push_two_digits(&mut out, self.month as u64);
        out.push('-');
        text::push_two_digits(&mut out, self.day as u64);
        out.push(' ');
        text::push_two_digits(&mut out, self.hour as u64);
        out.push(':');
        text::push_two_digits(&mut out, self.minute as u64);
        out.push(':');
        text::push_two_digits(&mut out, self.second as u64);
        out.push(' ');
        let ghost before = out@;
        let seconds: u64 = if self.utc_offset < 0 {
            out.push('-');
            (-(self.utc_offset as i64)) as u64
        } else {
            out.push('+');
            self.utc_offset as u64
        };
        text::push_two_digits(&mut out, seconds / 3600);
        text::push_two_digits(&mut out, seconds / 60 % 60);
        assert(out@ =~= before + offset_text(self.utc_offset as int));
        assert(out@ =~= time_text(*self));
        out
    }
}

/// `local_text`.
pub fn local_date(date: &Option<DateTime>) -> (r: String)
    ensures
        r@ == local_text(*date),
{
    match date {
        Some(date) => match &date.local {
            Some(local) => local.to_string(),
            None => String::new(),
        },
        None => String::new(),
    }
}

proof fn lemma_two_digits(n: nat)
    requires
        n < 100,
    ensures
        text::two_digits(n).len() == 2,
{
    reveal_with_fuel(text::decimal, 3);
}

proof fn lemma_four_digits(n: nat)
    requires
        1000 <= n < 10000,
    ensures
        text::decimal(n).len() == 4,
{
    reveal_with_fuel(text::decimal, 5);
}

/// A local date of a year with four digits has a fixed shape: it is 25
/// characters long, and the offset with its sign follows the last space.
pub proof fn law_local_dates_have_one_shape(date: DateTime, local: CalendarTime)
    requires
        date.local == Some(local),
        1000 <= local.year < 10000,
        local.month < 100,
        local.day < 100,
        local.hour < 100,
        local.minute < 100,
        local.second < 100,
        -360000 < local.utc_offset < 360000,
    ensures
        local_text(Some(date)).len() == 25,
        local_text(Some(date))[19] == ' ',
        local_text(Some(date))[20] == '+' || local_text(Some(date))[20] == '-',
{
    lemma_four_digits(local.year as nat);
    lemma_two_digits(local.month as nat);
    lemma_two_digits(local.day as nat);
    lemma_two_digits(local.hour as nat);
    lemma_two_digits(local.minute as nat);
    lemma_two_digits(local.second as nat);
    lemma_two_digits(magnitude(local.utc_offset as int) / 3600);
    lemma_two_digits(magnitude(local.utc_offset as int) / 60 % 60);
}

/// The days of a year before a month, in a year that is no leap year.
pub open spec fn days_before_month(month: int) -> int {
    if month <= 1 {
        0
    } else if month == 2 {
        31
    } else if month == 3 {
        59
    } else if month == 4 {
        90
    } else if month == 5 {
        120
    } else if month == 6 {
        151
    } else if month == 7 {
        181
    } else if month == 8 {
        212
    } else if month == 9 {
        243
    } else if month == 10 {
        273
    } else if month == 11 {
        304
    } else {
        334
    }
}

/// The year has a 29th of February.
pub open spec fn leap(year: int) -> bool {
    year % 4 == 0 && (year % 100 != 0 || year % 400 == 0)
}

/// The seconds that have passed since the first day of the year 1, by UTC.
pub open spec fn instant(t: CalendarTime) -> int {
    let past = t.year - 1;
    let days = past * 365 + past / 4 - past / 100 + past / 400 + days_before_month(t.month as int)
        + (if leap(t.year as int) && t.month > 2 {
        1int
    } else {
        0
    }) + t.day - 1;
    days * 86400 + t.hour * 3600 + t.minute * 60 + t.second - t.utc_offset
}

/// A date is shown in the time zone of the user, whatever offset it is written
/// with: two dates of the same instant are shown alike. `zone` is what the
/// calendar and the clock of the user show at an instant.
pub proof fn law_one_instant_is_shown_in_one_way(
    a: DateTime,
    b: DateTime,
    zone: spec_fn(int) -> Option<CalendarTime>,
)
    requires
        a.local == zone(instant(a.written)),
        b.local == zone(instant(b.written)),
        instant(a.written) == instant(b.written),
    ensures
        local_text(Some(a)) == local_text(Some(b)),
{
}

/// Writing a time with another offset, and the clock moved by as much, does not
/// change the instant.
pub proof fn law_the_offset_does_not_change_the_instant(t: CalendarTime, hour: u8, utc_offset: i32)
    requires
        hour * 3600 - utc_offset == t.hour * 3600 - t.utc_offset,
    ensures
        instant(CalendarTime { hour, utc_offset, ..t }) == instant(t),
{
}

spec fn digit(d: int) -> char {
    (48 + d) as u8 as char
}

/// What is shown behind the year.
spec fn fields(t: CalendarTime) -> Seq<char> {
    let seconds = magnitude(t.utc_offset as int) as int;
    seq![
        '-',
        digit(t.month as int / 10),
        digit(t.month as int % 10),
        '-',
        digit(t.day as int / 10),
        digit(t.day as int % 10),
        ' ',
        digit(t.hour as int / 10),
        digit(t.hour as int % 10),
        ':',
        digit(t.minute as int / 10),
        digit(t.minute as int % 10),
        ':',
        digit(t.second as int / 10),
        digit(t.second as int % 10),
        ' ',
        if t.utc_offset < 0 {
            '-'
        } else {
            '+'
        },
        digit(seconds / 3600 / 10),
        digit(seconds / 3600 % 10),
        digit(seconds / 60 % 60 / 10),
        digit(seconds / 60 % 60 % 10),
    ]
}

proof fn lemma_pair(n: nat)
    requires
        n < 100,
    ensures
        text::two_digits(n) == seq![digit(n as int / 10), digit(n as int % 10)],
{
    text::law_two_digits_are_tens_and_ones(n);
    assert(text::two_digits(n) =~= seq![digit(n as int / 10), digit(n as int % 10)]);
}

proof fn lemma_fields(t: CalendarTime)
    requires
        t.month < 100,
        t.day < 100,
        t.hour < 100,
        t.minute < 100,
        t.second < 100,
        -360000 < t.utc_offset < 360000,
    ensures
        time_text(t) == text::decimal(t.year as nat) + fields(t),
{
    let seconds = magnitude(t.utc_offset as int);
    let sign = if t.utc_offset < 0 {
        '-'
    } else {
        '+'
    };
    lemma_pair(t.month as nat);
    lemma_pair(t.day as nat);
    lemma_pair(t.hour as nat);
    lemma_pair(t.minute as nat);
    lemma_pair(t.second as nat);
    lemma_pair(seconds / 3600);
    lemma_pair(seconds / 60 % 60);
    lemma_pieces(
        text::decimal(t.year as nat),
        text::two_digits(t.month as nat),
        text::two_digits(t.day as nat),
        text::two_digits(t.hour as nat),
        text::two_digits(t.minute as nat),
        text::two_digits(t.second as nat),
        sign,
        text::two_digits(seconds / 3600),
        text::two_digits(seconds / 60 % 60),
    );
}

proof fn lemma_pieces(
    year: Seq<char>,
    a: Seq<char>,
    b: Seq<char>,
    c: Seq<char>,
    d: Seq<char>,
    e: Seq<char>,
    sign: char,
    f: Seq<char>,
    g: Seq<char>,
)
    requires
        a.len() == 2,
        b.len() == 2,
        c.len() == 2,
        d.len() == 2,
        e.len() == 2,
        f.len() == 2,
        g.len() == 2,
    ensures
        year + seq!['-'] + a + seq!['-'] + b + seq![' '] + c + seq![':'] + d + seq![':'] + e + seq![
            ' ',
        ] + (seq![sign] + f + g) == year + seq![
            '-',
            a[0],
            a[1],
            '-',
            b[0],
            b[1],
            ' ',
            c[0],
            c[1],
            ':',
            d[0],
            d[1],
            ':',
            e[0],
            e[1],
            ' ',
            sign,
            f[0],
            f[1],
            g[0],
            g[1],
        ],
{
    let day = seq!['-', a[0], a[1], '-', b[0], b[1], ' '];
    let time = seq![c[0], c[1], ':', d[0], d[1], ':', e[0], e[1], ' '];
    let offset = seq![sign, f[0], f[1], g[0], g[1]];
    assert(year + seq!['-'] + a + seq!['-'] + b + seq![' '] =~= year + day);
    assert(year + day + c + seq![':'] + d + seq![':'] + e + seq![' '] =~= year + day + time);
    assert(seq![sign] + f + g =~= offset);
    assert(year + day + time + offset =~= year + (day + time + offset));
    assert(day + time =~= seq![
        '-',
        a[0],
        a[1],
        '-',
        b[0],
        b[1],
        ' ',
        c[0],
        c[1],
        ':',
        d[0],
        d[1],
        ':',
        e[0],
        e[1],
        ' ',
    ]);
    assert(day + time + offset =~= seq![
        '-',
        a[0],
        a[1],
        '-',
        b[0],
        b[1],
        ' ',
        c[0],
        c[1],
        ':',
        d[0],
        d[1],
        ':',
        e[0],
        e[1],
        ' ',
        sign,
        f[0],
        f[1],
        g[0],
        g[1],
    ]);
}

proof fn lemma_digits_of_offset(seconds: nat)
    ensures
        seconds / 60 % 60 / 10 == seconds / 600 % 6,
        seconds / 60 % 60 % 10 == seconds / 60 % 10,
        seconds / 3600 / 10 == seconds / 36000,
{
    let seconds = seconds as int;
    vstd::arithmetic::div_mod::lemma_div_denominator(seconds, 60, 10);
    vstd::arithmetic::div_mod::lemma_div_denominator(seconds, 3600, 10);
    lemma_tens(seconds / 60);
}

/// The tens and the ones of what is left of a number after whole sixties.
proof fn lemma_tens(n: int)
    requires
        n >= 0,
    ensures
        n % 60 / 10 == n / 10 % 6,
        n % 60 % 10 == n % 10,
{
    let (sixties, left) = (n / 60, n % 60);
    let (tens, ones) = (left / 10, left % 10);
    assert(n == 10 * (6 * sixties + tens) + ones);
    vstd::arithmetic::div_mod::lemma_fundamental_div_mod_converse(
        n,
        10,
        6 * sixties + tens,
        ones,
    );
    vstd::arithmetic::div_mod::lemma_fundamental_div_mod_converse(
        6 * sixties + tens,
        6,
        sixties,
        tens,
    );
}

/// The shown text is the year, a dash, two digits of the month, a dash, two of the
/// day, and after a blank two digits each of the hour, the minute and the second
/// with colons between them, and after a blank the sign of the offset, two digits of
/// its hours and two of its minutes. A date without a place in the time zone of the
/// user is shown as nothing.
pub proof fn law_every_field_is_shown_in_its_place(date: Option<DateTime>, shown: String)
    requires
        call_ensures(local_date, (&date,), shown),
        date matches Some(DateTime { local: Some(t), .. }) ==> t.month < 100 && t.day < 100
            && t.hour < 100 && t.minute < 100 && t.second < 100 && -360000 < t.utc_offset
            && t.utc_offset < 360000,
    ensures
        date is None ==> shown@.len() == 0,
        date matches Some(DateTime { local: None, .. }) ==> shown@.len() == 0,
        date matches Some(DateTime { local: Some(t), .. }) ==> {
            let year = shown@.take(shown@.len() - 21);
            let s = shown@.skip(shown@.len() - 21);
            let seconds = if t.utc_offset < 0 {
                -t.utc_offset
            } else {
                t.utc_offset as int
            };
            &&& shown@.len() > 21
            &&& text::number_written(year) == t.year
            &&& forall|i: int| 0 <= i < year.len() ==> 48 <= (#[trigger] year[i]) as int <= 57
            &&& t.year > 0 ==> year[0] as int > 48
            &&& s[0] == '-'
            &&& s[1] as int == 48 + t.month as int / 10 && s[2] as int == 48 + t.month as int % 10
            &&& s[3] == '-'
            &&& s[4] as int == 48 + t.day as int / 10 && s[5] as int == 48 + t.day as int % 10
            &&& s[6] == ' '
            &&& s[7] as int == 48 + t.hour as int / 10 && s[8] as int == 48 + t.hour as int % 10
            &&& s[9] == ':'
            &&& s[10] as int == 48 + t.minute as int / 10 && s[11] as int == 48 + t.minute as int
                % 10
            &&& s[12] == ':'
            &&& s[13] as int == 48 + t.second as int / 10 && s[14] as int == 48 + t.second as int
                % 10
            &&& s[15] == ' '
            &&& s[16] == (if t.utc_offset < 0 {
                '-'
            } else {
                '+'
            })
            &&& s[17] as int == 48 + seconds / 36000 && s[18] as int == 48 + seconds / 3600 % 10
            &&& s[19] as int == 48 + seconds / 600 % 6 && s[20] as int == 48 + seconds / 60 % 10
        },
{
    if let Some(DateTime { local: Some(t), .. }) = date {
        let seconds = magnitude(t.utc_offset as int);
        let year = text::decimal(t.year as nat);
        text::law_a_number_is_read_back(t.year as nat);
        lemma_digits_of_offset(seconds);
        lemma_fields(t);
        assert(shown@.take(shown@.len() - 21) =~= year);
        assert(shown@.skip(shown@.len() - 21) =~= fields(t));
    }
}

/// For a year of four digits the month is at the sixth and seventh character of what
/// is shown, and the day at the ninth and tenth.
pub proof fn law_the_month_comes_before_the_day(date: DateTime, t: CalendarTime)
    requires
        date.local == Some(t),
        1000 <= t.year < 10000,
        t.month < 100,
        t.day < 100,
    ensures
        text::number_written(local_text(Some(date)).subrange(0, 4)) == t.year,
        local_text(Some(date))[5] as int == 48 + t.month as int / 10,
        local_text(Some(date))[6] as int == 48 + t.month as int % 10,
        local_text(Some(date))[8] as int == 48 + t.day as int / 10,
        local_text(Some(date))[9] as int == 48 + t.day as int % 10,
{
    lemma_four_digits(t.year as nat);
    text::law_a_number_is_read_back(t.year as nat);
    text::law_two_digits_are_tens_and_ones(t.month as nat);
    text::law_two_digits_are_tens_and_ones(t.day as nat);
    assert(local_text(Some(date)).subrange(0, 4) =~= text::decimal(t.year as nat));
}

/// A time alone is shown as it is where it is the local time of a date.
pub proof fn law_a_time_is_shown_alike_everywhere(
    t: CalendarTime,
    written: CalendarTime,
    alone: String,
    shown: String,
)
    requires
        call_ensures(CalendarTime::to_string, (&t,), alone),
        call_ensures(local_date, (&Some(DateTime { written, local: Some(t) }),), shown),
    ensures
        alone@ == shown@,
{
}

} // verus!
