//! The real-time clock: wall-clock time.
//!
//! The clock changes its registers once per second, and reading them in
//! between gives a mixture. So the time is read until two reads agree.
//! Whether the clock runs in UTC or in local time cannot be told from the
//! hardware, and is not guessed.
use vstd::prelude::*;
use crate::text::{self, push_decimal, push_padded_decimal};

verus! {

pub const CMOS_ADDRESS: u16 = 0x70;

pub const CMOS_DATA: u16 = 0x71;

pub const REG_SECONDS: u8 = 0x00;

pub const REG_MINUTES: u8 = 0x02;

pub const REG_HOURS: u8 = 0x04;

pub const REG_DAY: u8 = 0x07;

pub const REG_MONTH: u8 = 0x08;

pub const REG_YEAR: u8 = 0x09;

pub const REG_STATUS_A: u8 = 0x0A;

pub const REG_STATUS_B: u8 = 0x0B;

/// Wall-clock time as the clock reports it.
#[derive(Debug, Clone, Copy, PartialEq, Eq, Structural)]
pub struct DateTime {
    /// The full year.
    pub year: u16,
    pub month: u8,
    pub day: u8,
    pub hour: u8,
    pub minute: u8,
    pub second: u8,
}

impl Default for DateTime {
    fn default() -> (r: Self)
        ensures
            r == (DateTime { year: 0, month: 0, day: 0, hour: 0, minute: 0, second: 0 }),
    {
        DateTime { year: 0, month: 0, day: 0, hour: 0, minute: 0, second: 0 }
    }
}

/// Days from the first of January 1970 to a date, counting years from
/// March so that the leap day is the last day of a year.
pub open spec fn days_since_epoch(year: int, month: int, day: int) -> int {
    let y = if month <= 2 {
        year - 1
    } else {
        year
    };
    let m = if month > 2 {
        month - 3
    } else {
        month + 9
    };
    365 * y + y / 4 - y / 100 + y / 400 + (153 * m + 2) / 5 + day - 1 - 719468
}

/// Seconds from the epoch to a time, which is negative before it.
pub open spec fn seconds_since_epoch(t: DateTime) -> int {
    days_since_epoch(t.year as int, t.month as int, t.day as int) * 86400 + t.hour * 3600 + t.minute
        * 60 + t.second
}

impl DateTime {
    /// What `is_plausible` checks.
    pub open spec fn plausible(self) -> bool {
        &&& 2000 <= self.year <= 2199
        &&& 1 <= self.month <= 12
        &&& 1 <= self.day <= 31
        &&& self.hour < 24
        &&& self.minute < 60
        &&& self.second <= 60
    }

    /// Whether this looks like a real date. A clock with a dead battery
    /// can hold anything. A sixtieth second is a leap second.
    pub fn is_plausible(&self) -> (r: bool)
        ensures
            r == self.plausible(),
    {
        self.year >= 2000 && self.year <= 2199 && self.month >= 1 && self.month <= 12 && self.day
            >= 1 && self.day <= 31 && self.hour < 24 && self.minute < 60 && self.second <= 60
    }

    /// Seconds since the Unix epoch, or zero for a time before it.
    pub fn to_unix_seconds(&self) -> (seconds: u64)
        ensures
            seconds == (if seconds_since_epoch(*self) >= 0 {
                seconds_since_epoch(*self)
            } else {
                0
            }),
    {
        let month: i64 = self.month as i64;
        // Shifted by one whole cycle of the calendar, so that nothing is
        // negative before the last step.
        let shifted: i64 = if month <= 2 {
            self.year as i64 + 399
        } else {
            self.year as i64 + 400
        };
        let era: i64 = shifted / 400;
        let year_of_era: i64 = shifted % 400;
        let month_shifted: i64 = if month > 2 {
            month - 3
        } else {
            month + 9
        };
        let day_of_year: i64 = (153 * month_shifted + 2) / 5 + self.day as i64 - 1;
        let day_of_era: i64 = year_of_era * 365 + year_of_era / 4 - year_of_era / 100 + day_of_year;
        let days: i64 = era * 146_097 + day_of_era - 719_468 - 146_097;
        proof {
            lemma_eras(shifted as int - 400);
        }
        assert(days == days_since_epoch(self.year as int, self.month as int, self.day as int));
        let seconds: i64 = days * 86_400 + self.hour as i64 * 3_600 + self.minute as i64 * 60
            + self.second as i64;
        if seconds >= 0 {
            seconds as u64
        } else {
            0
        }
    }
}

/// Leap days counted by eras of four hundred years.
proof fn lemma_eras(y: int)
    requires
        -400 <= y <= 0x1_0000,
    ensures
        ({
            let era = (y + 400) / 400;
            let of_era = (y + 400) % 400;
            365 * y + y / 4 - y / 100 + y / 400 == era * 146097 + of_era * 365 + of_era / 4 - of_era
                / 100 - 146097
        }),
{
    let era = (y + 400) / 400;
    let of_era = (y + 400) % 400;
    assert(y + 400 == 400 * era + of_era);
    assert(y == 400 * (era - 1) + of_era);
    assert(y / 400 == era - 1);
    assert(y / 4 == 100 * (era - 1) + of_era / 4);
    assert(y / 100 == 4 * (era - 1) + of_era / 100);
}

/// Binary-coded decimal to binary.
pub open spec fn bcd_value(value: u8) -> int {
    value % 16 + 10 * (value as int / 16)
}

/// Binary-coded decimal to binary.
pub fn from_bcd(value: u8) -> (r: u8)
    ensures
        r == bcd_value(value),
{
    value % 16 + (value / 16) * 10
}

/// The clock's registers, as they were read.
#[derive(Debug, Clone, Copy, PartialEq, Eq, Structural)]
pub struct Registers {
    pub second: u8,
    pub minute: u8,
    pub hour: u8,
    pub day: u8,
    pub month: u8,
    pub year: u8,
    pub status_b: u8,
}

/// Whether an update is in progress, by status register A.
pub fn update_in_progress(status_a: u8) -> (r: bool)
    ensures
        r == (status_a >= 0x80),
{
    status_a >= 0x80
}

impl Registers {
    /// Whether the numbers are binary: bit 2 of status register B.
    pub open spec fn is_binary(self) -> bool {
        self.status_b / 4 % 2 == 1
    }

    /// Whether the hour counts to twenty-four: bit 1 of status register B.
    pub open spec fn is_24_hour(self) -> bool {
        self.status_b / 2 % 2 == 1
    }

    /// What a register's value stands for.
    pub open spec fn value(self, register: u8) -> int {
        if self.is_binary() {
            register as int
        } else {
            bcd_value(register)
        }
    }

    /// The hour. In twelve-hour mode the high bit says that it is past
    /// noon; twelve in the morning is midnight.
    pub open spec fn hour_of_day(self) -> int {
        let pm = !self.is_24_hour() && self.hour >= 0x80;
        let h = self.value((self.hour % 0x80) as u8);
        if pm && h != 12 {
            h + 12
        } else if !self.is_24_hour() && !pm && h == 12 {
            0
        } else {
            h
        }
    }

    /// The year. The hardware has two digits, and those below 70 are in
    /// this century.
    pub open spec fn full_year(self) -> int {
        if self.value(self.year) < 70 {
            2000 + self.value(self.year)
        } else {
            1900 + self.value(self.year)
        }
    }

    fn convert(&self, register: u8) -> (v: u8)
        ensures
            v == self.value(register),
    {
        if self.status_b / 4 % 2 == 1 {
            register
        } else {
            from_bcd(register)
        }
    }
}

/// The time that the registers stand for.
pub fn read_raw(registers: &Registers) -> (t: DateTime)
    ensures
        t.year == registers.full_year(),
        t.month == registers.value(registers.month),
        t.day == registers.value(registers.day),
        t.hour == registers.hour_of_day(),
        t.minute == registers.value(registers.minute),
        t.second == registers.value(registers.second),
{
    let twenty_four_hour: bool = registers.status_b / 2 % 2 == 1;
    let pm: bool = !twenty_four_hour && registers.hour >= 0x80;
    let mut hour: u8 = registers.convert(registers.hour % 0x80);
    if pm && hour != 12 {
        hour += 12;
    } else if !twenty_four_hour && !pm && hour == 12 {
        hour = 0;
    }
    let short: u16 = registers.convert(registers.year) as u16;
    let year: u16 = if short < 70 {
        2000 + short
    } else {
        1900 + short
    };
    DateTime {
        year,
        month: registers.convert(registers.month),
        day: registers.convert(registers.day),
        hour,
        minute: registers.convert(registers.minute),
        second: registers.convert(registers.second),
    }
}

/// How often the clock is read again at most.
pub const RETRIES: u32 = 10;

/// Reading the clock until two reads agree.
#[derive(Debug, Clone, Copy, PartialEq, Eq, Structural)]
pub struct Settling {
    pub previous: DateTime,
    pub retries: u32,
}

/// Starts with a first read.
pub fn begin(first: DateTime) -> (s: Settling)
    ensures
        s == (Settling { previous: first, retries: 0 }),
{
    Settling { previous: first, retries: 0 }
}

/// Takes another read. Returns the time once two reads in a row agree, or
/// once the clock has been read often enough: a broken clock must not hang
/// the boot.
pub fn now(state: &mut Settling, current: DateTime) -> (r: Option<DateTime>)
    requires
        old(state).retries < RETRIES,
    ensures
        *final(state) == (Settling {
            previous: current,
            retries: (old(state).retries + 1) as u32,
        }),
        r == (if current == old(state).previous || old(state).retries + 1 == RETRIES {
            Some(current)
        } else {
            None
        }),
{
    let settled: bool = current == state.previous;
    state.previous = current;
    state.retries += 1;
    if settled || state.retries == RETRIES {
        Some(current)
    } else {
        None
    }
}

/// A time as text.
pub open spec fn timestamp(t: DateTime) -> Seq<char> {
    text::zero_padded(text::decimal(t.year as nat), 4) + "-"@ + text::zero_padded(
        text::decimal(t.month as nat),
        2,
    ) + "-"@ + text::zero_padded(text::decimal(t.day as nat), 2) + " "@ + text::zero_padded(
        text::decimal(t.hour as nat),
        2,
    ) + ":"@ + text::zero_padded(text::decimal(t.minute as nat), 2) + ":"@ + text::zero_padded(
        text::decimal(t.second as nat),
        2,
    )
}

fn push_timestamp(out: &mut String, t: &DateTime)
    ensures
        final(out)@ == old(out)@ + timestamp(*t),
{
    let ghost before = out@;
    push_padded_decimal(out, t.year as u64, 4);
    out.append("-");
    push_padded_decimal(out, t.month as u64, 2);
    out.append("-");
    push_padded_decimal(out, t.day as u64, 2);
    out.append(" ");
    push_padded_decimal(out, t.hour as u64, 2);
    out.append(":");
    push_padded_decimal(out, t.minute as u64, 2);
    out.append(":");
    push_padded_decimal(out, t.second as u64, 2);
    assert(out@ =~= before + timestamp(*t));
}

/// The log line about the clock.
pub open spec fn clock_line(t: DateTime) -> Seq<char> {
    if t.plausible() {
        "Najm Kernel: wall clock is "@ + timestamp(t) + " ("@ + text::decimal(
            seconds_since_epoch(t) as nat,
        )
            + " seconds since the Unix epoch, timezone unknown - the RTC does not say whether it runs in UTC or local time)"@
    } else {
        "Najm Kernel: the RTC reported "@ + timestamp(t)
            + ", which is not a plausible date - treating wall-clock time as unavailable rather than trusting it"@
    }
}

/// Takes what the clock said. Returns the time, if it can be a real date,
/// and the log line about it.
pub fn init(now: DateTime) -> (r: (Option<DateTime>, String))
    ensures
        r.0 == (if now.plausible() {
            Some(now)
        } else {
            None
        }),
        r.1@ == clock_line(now),
{
    if !now.is_plausible() {
        let mut line = String::from_str("Najm Kernel: the RTC reported ");
        push_timestamp(&mut line, &now);
        line.append(
            ", which is not a plausible date - treating wall-clock time as unavailable rather than trusting it",
        );
        return (None, line);
    }
    let mut line = String::from_str("Najm Kernel: wall clock is ");
    push_timestamp(&mut line, &now);
    line.append(" (");
    push_decimal(&mut line, now.to_unix_seconds());
    line.append(
        " seconds since the Unix epoch, timezone unknown - the RTC does not say whether it runs in UTC or local time)",
    );
    (Some(now), line)
}

// ---------------------------------------------------------------------
// Laws
// ---------------------------------------------------------------------

/// Whether a year has a leap day.
pub open spec fn is_leap(year: int) -> bool {
    year % 4 == 0 && (year % 100 != 0 || year % 400 == 0)
}

/// How many days a month has.
pub open spec fn days_in_month(year: int, month: int) -> int {
    if month == 2 {
        if is_leap(year) {
            29
        } else {
            28
        }
    } else if month == 4 || month == 6 || month == 9 || month == 11 {
        30
    } else {
        31
    }
}

/// Days are counted as the calendar counts them: the day after a date is
/// one more, within a month, from one month to the next and from one year
/// to the next, leap years included.
pub proof fn law_days_follow_the_calendar(year: int, month: int, day: int)
    requires
        1 <= year,
        1 <= month <= 12,
        1 <= day <= days_in_month(year, month),
    ensures
        day < days_in_month(year, month) ==> days_since_epoch(year, month, day + 1)
            == days_since_epoch(year, month, day) + 1,
        day == days_in_month(year, month) && month < 12 ==> days_since_epoch(year, month + 1, 1)
            == days_since_epoch(year, month, day) + 1,
        day == days_in_month(year, month) && month == 12 ==> days_since_epoch(year + 1, 1, 1)
            == days_since_epoch(year, month, day) + 1,
{
    if month == 2 {
        lemma_leap_days(year);
    }
}

/// One more leap day is counted in a leap year than before it.
proof fn lemma_leap_days(year: int)
    requires
        1 <= year,
    ensures
        year / 4 - year / 100 + year / 400 - ((year - 1) / 4 - (year - 1) / 100 + (year - 1) / 400)
            == (if is_leap(year) {
            1int
        } else {
            0
        }),
{
    lemma_count_multiples(year, 4);
    lemma_count_multiples(year, 100);
    lemma_count_multiples(year, 400);
    lemma_divides(year, 100, 4);
    lemma_divides(year, 4, 25);
}

/// A multiple of a product is a multiple of its first factor.
proof fn lemma_divides(n: int, a: int, b: int)
    requires
        0 <= n,
        1 <= a,
        1 <= b,
    ensures
        n % (a * b) == 0 ==> n % a == 0,
{
    assert(a * b >= 1) by (nonlinear_arith)
        requires
            1 <= a,
            1 <= b,
    ;
    let q = n / (a * b);
    vstd::arithmetic::div_mod::lemma_fundamental_div_mod(n, a * b);
    if n % (a * b) == 0 {
        assert((a * b) * q == (b * q) * a) by (nonlinear_arith);
        vstd::arithmetic::div_mod::lemma_fundamental_div_mod_converse(n, a, b * q, 0);
    }
}

proof fn lemma_count_multiples(year: int, d: int)
    requires
        1 <= year,
        1 <= d,
    ensures
        year / d - (year - 1) / d == (if year % d == 0 {
            1int
        } else {
            0
        }),
{
    vstd::arithmetic::div_mod::lemma_fundamental_div_mod(year, d);
    let q = year / d;
    let r = year % d;
    assert(q * d == d * q) by (nonlinear_arith);
    if r == 0 {
        assert((q - 1) * d == q * d - d) by (nonlinear_arith);
        vstd::arithmetic::div_mod::lemma_fundamental_div_mod_converse(year - 1, d, q - 1, d - 1);
    } else {
        vstd::arithmetic::div_mod::lemma_fundamental_div_mod_converse(year - 1, d, q, r - 1);
    }
}

/// The count starts at the epoch.
pub proof fn law_epoch_is_zero()
    ensures
        days_since_epoch(1970, 1, 1) == 0,
{
}

/// Binary-coded decimal has the tens in the upper four bits and the units in
/// the lower.
pub proof fn law_bcd_is_decimal(tens: u8, units: u8)
    requires
        tens <= 9,
        units <= 9,
    ensures
        bcd_value((16 * tens + units) as u8) == 10 * tens + units,
{
}

/// What the registers stand for. A year of two digits is of this century up
/// to 69 and of the last one from 70 on. In twelve-hour mode the hours from
/// one to eleven past noon are thirteen to twenty-three, twelve past noon is
/// noon, and twelve in the morning is midnight.
pub proof fn law_registers_are_read(r: Registers, n: u8)
    requires
        n <= 99,
    ensures
        r.status_b == 0x06 && r.hour == n ==> r.hour_of_day() == n,
        r.status_b == 0x06 && r.year == n ==> r.full_year() == (if n < 70 {
            2000 + n
        } else {
            1900 + n
        }),
        r.status_b == 0x06 ==> r.value(n) == n,
        r.status_b == 0x02 && r.hour == n / 10 * 16 + n % 10 && n < 80 ==> r.hour_of_day() == n,
        r.status_b == 0x02 ==> r.value((n / 10 * 16 + n % 10) as u8) == n,
        r.status_b == 0x04 && r.hour == n && 1 <= n <= 12 ==> r.hour_of_day() == (if n == 12 {
            0int
        } else {
            n as int
        }),
        r.status_b == 0x04 && r.hour == n + 128 && 1 <= n <= 12 ==> r.hour_of_day() == (if n == 12 {
            12int
        } else {
            n + 12
        }),
        r.status_b == 0x00 && r.hour == n / 10 * 16 + n % 10 + 128 && 1 <= n <= 12
            ==> r.hour_of_day() == (if n == 12 {
            12int
        } else {
            n + 12
        }),
{
}

/// The bits of status register B say by themselves how the numbers are
/// coded: one of them that they are binary, another that hours go to 24.
pub proof fn law_status_says_the_coding(r: Registers)
    ensures
        r.is_binary() <==> r.status_b % 8 >= 4,
        r.is_24_hour() <==> r.status_b % 4 >= 2,
{
}

/// A later time of day is that many seconds later, and a day has 86400.
pub proof fn law_seconds_count_on(a: DateTime, b: DateTime)
    ensures
        a.year == b.year && a.month == b.month && a.day == b.day ==> seconds_since_epoch(b)
            - seconds_since_epoch(a) == 3600 * (b.hour - a.hour) + 60 * (b.minute - a.minute) + (
        b.second - a.second),
        a.hour == b.hour && a.minute == b.minute && a.second == b.second ==> seconds_since_epoch(b)
            - seconds_since_epoch(a) == 86400 * (days_since_epoch(
            b.year as int,
            b.month as int,
            b.day as int,
        ) - days_since_epoch(a.year as int, a.month as int, a.day as int)),
        a == (DateTime { year: 1970, month: 1, day: 1, hour: 0, minute: 0, second: 0 })
            ==> seconds_since_epoch(a) == 0,
{
}

/// A time is written with the year first and the second last, the year with
/// four digits and everything else with two.
pub proof fn law_times_are_written(t: DateTime)
    ensures
        text::says(
            timestamp(t),
            seq![
                text::zero_padded(text::decimal(t.year as nat), 4),
                text::zero_padded(text::decimal(t.month as nat), 2),
                text::zero_padded(text::decimal(t.day as nat), 2),
                text::zero_padded(text::decimal(t.hour as nat), 2),
                text::zero_padded(text::decimal(t.minute as nat), 2),
                text::zero_padded(text::decimal(t.second as nat), 2),
            ],
        ),
{
    let none = Seq::<Seq<char>>::empty();
    let start = Seq::<char>::empty();
    text::lemma_says(start, none, text::zero_padded(text::decimal(t.year as nat), 4), "-"@);
    let line1 = start + text::zero_padded(text::decimal(t.year as nat), 4) + "-"@;
    let parts1 = none.push(text::zero_padded(text::decimal(t.year as nat), 4));
    text::lemma_says(line1, parts1, text::zero_padded(text::decimal(t.month as nat), 2), "-"@);
    let line2 = line1 + text::zero_padded(text::decimal(t.month as nat), 2) + "-"@;
    let parts2 = parts1.push(text::zero_padded(text::decimal(t.month as nat), 2));
    text::lemma_says(line2, parts2, text::zero_padded(text::decimal(t.day as nat), 2), " "@);
    let line3 = line2 + text::zero_padded(text::decimal(t.day as nat), 2) + " "@;
    let parts3 = parts2.push(text::zero_padded(text::decimal(t.day as nat), 2));
    text::lemma_says(line3, parts3, text::zero_padded(text::decimal(t.hour as nat), 2), ":"@);
    let line4 = line3 + text::zero_padded(text::decimal(t.hour as nat), 2) + ":"@;
    let parts4 = parts3.push(text::zero_padded(text::decimal(t.hour as nat), 2));
    text::lemma_says(line4, parts4, text::zero_padded(text::decimal(t.minute as nat), 2), ":"@);
    let line5 = line4 + text::zero_padded(text::decimal(t.minute as nat), 2) + ":"@;
    let parts5 = parts4.push(text::zero_padded(text::decimal(t.minute as nat), 2));
    text::lemma_says(
        line5,
        parts5,
        text::zero_padded(text::decimal(t.second as nat), 2),
        Seq::<char>::empty(),
    );
    let line6 = line5 + text::zero_padded(text::decimal(t.second as nat), 2) + Seq::<char>::empty();
    let parts6 = parts5.push(text::zero_padded(text::decimal(t.second as nat), 2));
    assert(parts6 =~= seq![
        text::zero_padded(text::decimal(t.year as nat), 4),
        text::zero_padded(text::decimal(t.month as nat), 2),
        text::zero_padded(text::decimal(t.day as nat), 2),
        text::zero_padded(text::decimal(t.hour as nat), 2),
        text::zero_padded(text::decimal(t.minute as nat), 2),
        text::zero_padded(text::decimal(t.second as nat), 2),
    ]);
    assert(timestamp(t) =~= line6);
}

/// The log says of a time that can be one when it is, and how many seconds
/// that is after the epoch.
pub proof fn law_wall_clock_is_logged(t: DateTime)
    requires
        2000 <= t.year <= 2199,
        1 <= t.month <= 12,
        1 <= t.day <= 31,
        t.hour < 24,
        t.minute < 60,
        t.second <= 60,
    ensures
        text::says(
            clock_line(t),
            seq![
                timestamp(t),
                text::decimal(seconds_since_epoch(t) as nat),
            ],
        ),
{
    let none = Seq::<Seq<char>>::empty();
    let start = "Najm Kernel: wall clock is "@;
    text::lemma_says(start, none, timestamp(t), " ("@);
    let line1 = start + timestamp(t) + " ("@;
    let parts1 = none.push(timestamp(t));
    text::lemma_says(
        line1,
        parts1,
        text::decimal(seconds_since_epoch(t) as nat),
        " seconds since the Unix epoch, timezone unknown - the RTC does not say whether it runs in UTC or local time)"@,
    );
    let line2 = line1 + text::decimal(seconds_since_epoch(t) as nat)
        + " seconds since the Unix epoch, timezone unknown - the RTC does not say whether it runs in UTC or local time)"@;
    let parts2 = parts1.push(text::decimal(seconds_since_epoch(t) as nat));
    assert(parts2 =~= seq![timestamp(t), text::decimal(seconds_since_epoch(t) as nat)]);
    assert(clock_line(t) =~= line2);
}

/// A date can be a real one exactly in the years from 2000 to 2199, with a
/// month, a day, an hour and a minute that there are, and a second up to the
/// leap second.
pub proof fn law_impossible_dates_are_noticed(t: DateTime)
    ensures
        t.year < 2000 || t.year > 2199 ==> !t.plausible(),
        t.month == 0 || t.month > 12 ==> !t.plausible(),
        t.day == 0 || t.day > 31 ==> !t.plausible(),
        t.hour > 23 || t.minute > 59 || t.second > 60 ==> !t.plausible(),
        2000 <= t.year <= 2199 && 1 <= t.month <= 12 && 1 <= t.day <= 31 && t.hour <= 23 && t.minute
            <= 59 && t.second <= 60 ==> t.plausible(),
{
}

} // verus!
