//! Spans of wall-clock time and points in time, as plain values, and the
//! UTC calendar date of a point in time.

use vstd::prelude::*;
use vstd::string::StringExecFns;

verus! {

/// A span of time: whole seconds and the nanoseconds beyond them.
#[derive(Debug, Clone, Copy, PartialEq, Eq, Structural)]
pub struct Duration {
    secs: u64,
    nanos: u32,
}

impl View for Duration {
    type V = nat;

    /// The span in nanoseconds.
    closed spec fn view(&self) -> nat {
        (self.secs * 1_000_000_000 + self.nanos) as nat
    }
}

impl Duration {
    /// The sub-second part is below one second.
    #[verifier::type_invariant]
    spec fn inv(&self) -> bool {
        self.nanos < 1_000_000_000
    }

    /// The empty span.
    pub fn zero() -> (r: Duration)
        ensures
            r@ == 0,
    {
        Duration { secs: 0, nanos: 0 }
    }

    /// A span of `secs` whole seconds.
    pub fn from_secs(secs: u64) -> (r: Duration)
        ensures
            r@ == secs * 1_000_000_000,
            r.as_secs_spec() == secs,
    {
        Duration { secs, nanos: 0 }
    }

    /// A span of `millis` milliseconds.
    pub fn from_millis(millis: u64) -> (r: Duration)
        ensures
            r@ == millis * 1_000_000,
    {
        let secs = millis / 1000;
        let rem = millis % 1000;
        assert(rem * 1_000_000 < 1_000_000_000) by (nonlinear_arith)
            requires rem < 1000;
        let nanos = (rem * 1_000_000) as u32;
        let r = Duration { secs, nanos };
        assert(r@ == millis * 1_000_000) by (nonlinear_arith)
            requires secs == millis / 1000, rem == millis % 1000, nanos == rem * 1_000_000,
                r@ == secs * 1_000_000_000 + nanos;
        r
    }

    /// A span of `nanos` nanoseconds.
    pub fn from_nanos(nanos: u64) -> (r: Duration)
        ensures
            r@ == nanos,
    {
        let secs = nanos / 1_000_000_000;
        let sub = (nanos % 1_000_000_000) as u32;
        let r = Duration { secs, nanos: sub };
        assert(r@ == nanos) by (nonlinear_arith)
            requires secs == nanos / 1_000_000_000, sub == nanos % 1_000_000_000,
                r@ == secs * 1_000_000_000 + sub;
        r
    }

    /// A span of `secs` seconds and `nanos` nanoseconds; nanoseconds beyond
    /// a second carry into the seconds.
    pub fn new(secs: u64, nanos: u32) -> (r: Duration)
        requires
            secs + nanos / 1_000_000_000 <= u64::MAX,
        ensures
            r@ == secs * 1_000_000_000 + nanos,
    {
        let carry = (nanos / 1_000_000_000) as u64;
        let sub = nanos % 1_000_000_000;
        let r = Duration { secs: secs + carry, nanos: sub };
        assert(r@ == secs * 1_000_000_000 + nanos) by (nonlinear_arith)
            requires carry == nanos / 1_000_000_000, sub == nanos % 1_000_000_000,
                r@ == (secs + carry) * 1_000_000_000 + sub;
        r
    }

    /// Whole seconds of the span.
    pub closed spec fn as_secs_spec(&self) -> u64 {
        self.secs
    }

    /// Whole seconds of the span.
    pub fn as_secs(&self) -> (r: u64)
        ensures
            r == self.as_secs_spec(),
            r == self@ / 1_000_000_000,
    {
        proof {
            use_type_invariant(self);
            self.lemma_parts();
        }
        self.secs
    }

    /// The span in nanoseconds.
    pub fn as_nanos(&self) -> (r: u128)
        ensures
            r == self@,
    {
        let s = self.secs as u128;
        assert(s * 1_000_000_000 <= u64::MAX * 1_000_000_000) by (nonlinear_arith)
            requires s <= u64::MAX;
        s * 1_000_000_000 + self.nanos as u128
    }

    /// Whether this span is strictly longer than `other`.
    pub fn is_longer_than(&self, other: &Duration) -> (r: bool)
        ensures
            r == (self@ > other@),
    {
        self.as_nanos() > other.as_nanos()
    }

    /// The seconds and the sub-second nanoseconds are the quotient and
    /// remainder of the span by one second.
    proof fn lemma_parts(&self)
        ensures
            self.nanos < 1_000_000_000 ==> self.secs == self@ / 1_000_000_000,
    {
        if self.nanos < 1_000_000_000 {
            assert((self.secs * 1_000_000_000 + self.nanos) / 1_000_000_000 == self.secs) by (nonlinear_arith)
                requires self.nanos < 1_000_000_000;
        }
    }
}

/// A point in wall-clock time, as the span since the Unix epoch
/// (1970-01-01T00:00:00Z). Points before the epoch are not represented.
#[derive(Debug, Clone, Copy, PartialEq, Eq, Structural)]
pub struct SystemTime {
    since_epoch: Duration,
}

impl View for SystemTime {
    type V = nat;

    /// Nanoseconds since the Unix epoch.
    closed spec fn view(&self) -> nat {
        self.since_epoch@
    }
}

impl SystemTime {
    /// The Unix epoch.
    pub fn unix_epoch() -> (r: SystemTime)
        ensures
            r@ == 0,
    {
        SystemTime { since_epoch: Duration::zero() }
    }

    /// The point `since_epoch` after the Unix epoch.
    pub fn from_since_epoch(since_epoch: Duration) -> (r: SystemTime)
        ensures
            r@ == since_epoch@,
    {
        SystemTime { since_epoch }
    }

    /// The span since the Unix epoch.
    pub fn since_epoch(&self) -> (r: Duration)
        ensures
            r@ == self@,
    {
        self.since_epoch
    }

    /// The point `d` later, if its seconds fit in `u64`.
    pub fn checked_add(&self, d: Duration) -> (r: Option<SystemTime>)
        ensures
            r matches Some(t) ==> t@ == self@ + d@,
            r is None <==> (self@ + d@) / 1_000_000_000 > u64::MAX,
    {
        let a = self.since_epoch.as_nanos();
        let b = d.as_nanos();
        let total = a + b;
        let secs = total / 1_000_000_000;
        if secs > u64::MAX as u128 {
            None
        } else {
            let sub = (total % 1_000_000_000) as u64;
            let r = Duration::new(secs as u64, sub as u32);
            assert(secs * 1_000_000_000 + sub == total) by (nonlinear_arith)
                requires secs == total / 1_000_000_000, sub == total % 1_000_000_000;
            Some(SystemTime { since_epoch: r })
        }
    }

    /// Whole seconds since the Unix epoch.
    pub fn unix_secs(&self) -> (r: u64)
        ensures
            r == self@ / 1_000_000_000,
    {
        self.since_epoch.as_secs()
    }
}

/// The character of a decimal digit.
pub open spec fn digit_char(d: nat) -> char {
    (d + 48) as char
}

/// The decimal digits of `n`, most significant first.
pub open spec fn spec_decimal(n: nat) -> Seq<char>
    decreases n,
{
    if n < 10 {
        seq![digit_char(n)]
    } else {
        spec_decimal(n / 10).push(digit_char(n % 10))
    }
}

/// The decimal digits of `n`, padded with leading zeros to at least `width` characters.
pub open spec fn spec_padded(n: nat, width: nat) -> Seq<char> {
    let digits = spec_decimal(n);
    Seq::new((if width > digits.len() { width - digits.len() } else { 0 }) as nat, |i: int| '0') + digits
}

/// Whether `y` is a leap year of the Gregorian calendar.
pub open spec fn is_leap_year(y: nat) -> bool {
    y % 4 == 0 && (y % 100 != 0 || y % 400 == 0)
}

/// The number of days in year `y`.
pub open spec fn days_in_year(y: nat) -> nat {
    if is_leap_year(y) { 366 } else { 365 }
}

/// The number of days in month `m` (1 to 12) of year `y`.
pub open spec fn days_in_month(y: nat, m: nat) -> nat {
    if m == 2 {
        if is_leap_year(y) { 29 } else { 28 }
    } else if m == 4 || m == 6 || m == 9 || m == 11 {
        30
    } else {
        31
    }
}

/// The `(month, day)` of the day `doy` days after the first day of month `m` of year `y`.
pub open spec fn month_and_day(y: nat, doy: nat, m: nat) -> (nat, nat)
    decreases 12 - m,
{
    if m >= 12 || doy < days_in_month(y, m) {
        (m, doy + 1)
    } else {
        month_and_day(y, (doy - days_in_month(y, m)) as nat, m + 1)
    }
}

/// The `(year, month, day)` of the day `days` days after January 1 of year `y`.
pub open spec fn civil_date_from(y: nat, days: nat) -> (nat, nat, nat)
    decreases days,
{
    if days < days_in_year(y) {
        let (m, d) = month_and_day(y, days, 1);
        (y, m, d)
    } else {
        civil_date_from(y + 1, (days - days_in_year(y)) as nat)
    }
}

/// The proleptic Gregorian `(year, month, day)` of the day `days` after 1970-01-01.
pub open spec fn spec_civil_from_days(days: nat) -> (nat, nat, nat) {
    civil_date_from(1970, days)
}

/// The number of days in the `k` years that begin with year `y`.
pub open spec fn days_in_years(y: nat, k: nat) -> nat
    decreases k,
{
    if k == 0 { 0 } else { days_in_year(y) + days_in_years(y + 1, (k - 1) as nat) }
}

proof fn lemma_days_in_years_last(y: nat, k: nat)
    ensures
        days_in_years(y, k + 1) == days_in_years(y, k) + days_in_year(y + k),
{
    lemma_days_in_years_concat(y, k, 1);
    reveal_with_fuel(days_in_years, 2);
}

proof fn lemma_days_in_years_concat(y: nat, a: nat, b: nat)
    ensures
        days_in_years(y, a + b) == days_in_years(y, a) + days_in_years(y + a, b),
    decreases a,
{
    if a > 0 {
        lemma_days_in_years_concat(y + 1, (a - 1) as nat, b);
        assert(a + b - 1 == (a - 1) + b);
    }
}

/// Of four years that begin at a multiple of four, only the first can be a leap year.
proof fn lemma_four_years(y: nat)
    requires
        y % 4 == 0,
    ensures
        days_in_years(y, 4) == if is_leap_year(y) { 1461nat } else { 1460nat },
{
    reveal_with_fuel(days_in_years, 5);
    assert(!is_leap_year(y + 1) && !is_leap_year(y + 2) && !is_leap_year(y + 3));
}

/// The first `4 * i` years of a century that begins with year `y`.
proof fn lemma_century(y: nat, i: nat)
    requires
        y % 100 == 0,
        1 <= i <= 25,
    ensures
        days_in_years(y, 4 * i) == 1461 * i - 1 + if is_leap_year(y) { 1nat } else { 0nat },
    decreases i,
{
    lemma_four_years(y);
    if i > 1 {
        let j = (i - 1) as nat;
        lemma_century(y, j);
        let z = y + 4 * j;
        assert(z % 4 == 0 && z % 100 != 0) by (nonlinear_arith)
            requires z == y + 4 * j, y % 100 == 0, 1 <= j <= 24;
        lemma_four_years(z);
        lemma_days_in_years_concat(y, 4 * j, 4);
        assert(4 * i == 4 * j + 4);
    }
}

/// The leap years repeat every 400 years.
proof fn lemma_leap_period(y: nat)
    ensures
        days_in_year(y + 400) == days_in_year(y),
{
    assert((y + 400) % 4 == y % 4);
    assert((y + 400) % 100 == y % 100);
    assert((y + 400) % 400 == y % 400);
}

/// Every 400 consecutive years hold 146097 days.
proof fn lemma_four_centuries(y: nat)
    ensures
        days_in_years(y, 400) == 146097,
    decreases y,
{
    if y == 0 {
        lemma_century(0, 25);
        lemma_century(100, 25);
        lemma_century(200, 25);
        lemma_century(300, 25);
        lemma_days_in_years_concat(0, 100, 300);
        lemma_days_in_years_concat(100, 100, 200);
        lemma_days_in_years_concat(200, 100, 100);
    } else {
        let x = (y - 1) as nat;
        lemma_four_centuries(x);
        lemma_days_in_years_last(x, 400);
        lemma_leap_period(x);
        assert(days_in_years(x, 401) == days_in_year(x) + days_in_years(y, 400));
    }
}

/// Skipping whole years keeps the date.
proof fn lemma_skip_years(y: nat, k: nat, d: nat)
    ensures
        civil_date_from(y, d + days_in_years(y, k)) == civil_date_from(y + k, d),
    decreases k,
{
    if k > 0 {
        lemma_skip_years(y + 1, (k - 1) as nat, d);
    }
}

/// Skipping whole 400-year cycles keeps the date.
proof fn lemma_skip_cycles(y: nat, e: nat, d: nat)
    ensures
        civil_date_from(y, d + 146097 * e) == civil_date_from(y + 400 * e, d),
    decreases e,
{
    if e > 0 {
        let e1 = (e - 1) as nat;
        lemma_four_centuries(y);
        lemma_skip_years(y, 400, d + 146097 * e1);
        lemma_skip_cycles(y + 400, e1, d);
        assert(d + 146097 * e == d + 146097 * e1 + days_in_years(y, 400));
        assert(y + 400 * e == y + 400 + 400 * e1);
    }
}

/// The number of days from the first day of month `m` of year `y` to the end of the year.
pub open spec fn days_from_month(y: nat, m: nat) -> nat
    decreases 13 - m,
{
    if m > 12 { 0 } else { days_in_month(y, m) + days_from_month(y, m + 1) }
}

proof fn lemma_month_and_day_valid(y: nat, doy: nat, m: nat)
    requires
        1 <= m <= 12,
        doy < days_from_month(y, m),
    ensures
        m <= month_and_day(y, doy, m).0 <= 12,
        1 <= month_and_day(y, doy, m).1 <= days_in_month(y, month_and_day(y, doy, m).0),
    decreases 13 - m,
{
    if m < 12 && doy >= days_in_month(y, m) {
        lemma_month_and_day_valid(y, (doy - days_in_month(y, m)) as nat, m + 1);
    } else if m == 12 {
        reveal_with_fuel(days_from_month, 2);
    }
}

proof fn lemma_civil_date_from_valid(y: nat, days: nat)
    ensures
        civil_date_from(y, days).0 >= y,
        1 <= civil_date_from(y, days).1 <= 12,
        1 <= civil_date_from(y, days).2 <= days_in_month(civil_date_from(y, days).0, civil_date_from(y, days).1),
    decreases days,
{
    if days < days_in_year(y) {
        reveal_with_fuel(days_from_month, 13);
        lemma_month_and_day_valid(y, days, 1);
    } else {
        lemma_civil_date_from_valid(y + 1, (days - days_in_year(y)) as nat);
    }
}

/// Every day from the epoch on falls on a date of the Gregorian calendar: a
/// year from 1970 on, a month from 1 to 12, and a day within that month.
pub proof fn lemma_civil_date_valid(days: nat)
    ensures
        spec_civil_from_days(days).0 >= 1970,
        1 <= spec_civil_from_days(days).1 <= 12,
        1 <= spec_civil_from_days(days).2 <= days_in_month(spec_civil_from_days(days).0, spec_civil_from_days(days).1),
{
    lemma_civil_date_from_valid(1970, days);
}

/// `YYYYMMDDTHHMMSSZ` for the second `secs` after the Unix epoch, in UTC.
pub open spec fn spec_utc_timestamp(secs: nat) -> Seq<char> {
    let (y, m, d) = spec_civil_from_days(secs / 86400);
    let tod = secs % 86400;
    spec_padded(y, 4) + spec_padded(m, 2) + spec_padded(d, 2) + seq!['T']
        + spec_padded(tod / 3600, 2) + spec_padded((tod % 3600) / 60, 2) + spec_padded(tod % 60, 2)
        + seq!['Z']
}

/// A number below `10^w` padded to `w` digits takes exactly `w` characters.
proof fn lemma_padded_len(n: nat, w: nat)
    requires
        w >= 1,
        n < pow10(w),
    ensures
        spec_padded(n, w).len() == w,
{
    lemma_decimal_len_le(n, (w - 1) as nat);
}

/// The timestamp text of a second in a year up to 9999 has 16 characters:
/// four of year, two each of month, day, hour, minute and second, and the
/// `T` and `Z`.
pub proof fn lemma_utc_timestamp_len(secs: nat)
    requires
        spec_civil_from_days(secs / 86400).0 <= 9999,
    ensures
        spec_utc_timestamp(secs).len() == 16,
{
    let (y, m, d) = spec_civil_from_days(secs / 86400);
    lemma_civil_date_valid(secs / 86400);
    let tod = secs % 86400;
    assert(pow10(4) == 10000 && pow10(2) == 100) by { reveal_with_fuel(pow10, 5); }
    lemma_padded_len(y, 4);
    lemma_padded_len(m, 2);
    assert(days_in_month(y, m) <= 31);
    lemma_padded_len(d, 2);
    lemma_padded_len(tod / 3600, 2);
    lemma_padded_len((tod % 3600) / 60, 2);
    lemma_padded_len(tod % 60, 2);
}

/// Whether `a` comes before `b` in lexicographic order of characters: at
/// the first place where they differ, `a` has the smaller character.
pub open spec fn lex_lt(a: Seq<char>, b: Seq<char>) -> bool {
    exists|i: int| #![trigger a[i], b[i]] 0 <= i < a.len() && i < b.len() && a.take(i) == b.take(i)
        && (a[i] as u32) < (b[i] as u32)
}

proof fn lemma_lex_at(a: Seq<char>, b: Seq<char>, i: int)
    requires
        0 <= i < a.len(),
        i < b.len(),
        a.take(i) == b.take(i),
        (a[i] as u32) < (b[i] as u32),
    ensures
        lex_lt(a, b),
{
    assert(a[i] == a[i] && b[i] == b[i]);
}

/// A difference within equal-length heads decides the order of the whole.
proof fn lemma_lex_heads(x1: Seq<char>, x2: Seq<char>, r1: Seq<char>, r2: Seq<char>)
    requires
        x1.len() == x2.len(),
        lex_lt(x1, x2),
    ensures
        lex_lt(x1 + r1, x2 + r2),
{
    let i = choose|i: int| #![trigger x1[i], x2[i]] 0 <= i < x1.len() && i < x2.len() && x1.take(i) == x2.take(i)
        && (x1[i] as u32) < (x2[i] as u32);
    assert((x1 + r1).take(i) =~= x1.take(i));
    assert((x2 + r2).take(i) =~= x2.take(i));
    lemma_lex_at(x1 + r1, x2 + r2, i);
}

/// A common head leaves the order to what follows.
proof fn lemma_lex_tails(p: Seq<char>, x1: Seq<char>, x2: Seq<char>)
    requires
        lex_lt(x1, x2),
    ensures
        lex_lt(p + x1, p + x2),
{
    let i = choose|i: int| #![trigger x1[i], x2[i]] 0 <= i < x1.len() && i < x2.len() && x1.take(i) == x2.take(i)
        && (x1[i] as u32) < (x2[i] as u32);
    assert((p + x1).take(p.len() + i) =~= p + x1.take(i));
    assert((p + x2).take(p.len() + i) =~= p + x2.take(i));
    lemma_lex_at(p + x1, p + x2, p.len() + i);
}

/// Padding a number of at least two places appends its last digit to the
/// padding of the rest.
proof fn lemma_padded_push(n: nat, w: nat)
    requires
        w >= 2,
        n < pow10(w),
    ensures
        spec_padded(n, w) == spec_padded(n / 10, (w - 1) as nat).push(digit_char(n % 10)),
{
    lemma_decimal_len_le(n, (w - 1) as nat);
    if n >= 10 {
        assert(pow10(w) == 10 * pow10((w - 1) as nat));
        assert(n / 10 < pow10((w - 1) as nat)) by (nonlinear_arith)
            requires n < 10 * pow10((w - 1) as nat);
        lemma_decimal_len_le(n / 10, (w - 2) as nat);
        assert(spec_decimal(n) == spec_decimal(n / 10).push(digit_char(n % 10)));
        assert(spec_padded(n, w) =~= spec_padded(n / 10, (w - 1) as nat).push(digit_char(n % 10)));
    } else {
        assert(n / 10 == 0 && n % 10 == n);
        assert(spec_decimal(0) == seq![digit_char(0)]);
        assert(spec_padded(n, w) =~= spec_padded(0, (w - 1) as nat).push(digit_char(n))) by {
            assert(spec_decimal(n) == seq![digit_char(n)]);
        }
    }
}

/// Numbers below `10^w` padded to `w` places compare as the numbers do.
proof fn lemma_padded_lt(a: nat, b: nat, w: nat)
    requires
        w >= 1,
        a < b,
        b < pow10(w),
    ensures
        lex_lt(spec_padded(a, w), spec_padded(b, w)),
        spec_padded(a, w).len() == w,
        spec_padded(b, w).len() == w,
    decreases w,
{
    lemma_padded_len(a, w);
    lemma_padded_len(b, w);
    if w == 1 {
        assert(pow10(1) == 10) by { reveal_with_fuel(pow10, 2); }
        assert(spec_decimal(a) == seq![digit_char(a)]);
        assert(spec_decimal(b) == seq![digit_char(b)]);
        assert(spec_padded(a, 1) =~= seq![digit_char(a)]);
        assert(spec_padded(b, 1) =~= seq![digit_char(b)]);
        assert(spec_padded(a, 1).take(0) =~= spec_padded(b, 1).take(0));
        lemma_lex_at(spec_padded(a, 1), spec_padded(b, 1), 0);
    } else {
        lemma_padded_push(a, w);
        lemma_padded_push(b, w);
        let w1 = (w - 1) as nat;
        assert(pow10(w) == 10 * pow10(w1));
        assert(a / 10 <= b / 10 < pow10(w1)) by (nonlinear_arith)
            requires a < b, b < 10 * pow10(w1);
        lemma_padded_len(a / 10, w1);
        if a / 10 == b / 10 {
            assert(a % 10 < b % 10) by (nonlinear_arith)
                requires a < b, a / 10 == b / 10;
            let p = spec_padded(a / 10, w1);
            assert(spec_padded(a, w).take(w1 as int) =~= p);
            assert(spec_padded(b, w).take(w1 as int) =~= p);
            lemma_lex_at(spec_padded(a, w), spec_padded(b, w), w1 as int);
        } else {
            lemma_padded_lt(a / 10, b / 10, w1);
            lemma_lex_heads(spec_padded(a / 10, w1), spec_padded(b / 10, w1),
                seq![digit_char(a % 10)], seq![digit_char(b % 10)]);
            assert(spec_padded(a / 10, w1) + seq![digit_char(a % 10)] =~= spec_padded(a, w));
            assert(spec_padded(b / 10, w1) + seq![digit_char(b % 10)] =~= spec_padded(b, w));
        }
    }
}

/// Whether date `a` comes before date `b`: by year, then month, then day.
pub open spec fn date_lt(a: (nat, nat, nat), b: (nat, nat, nat)) -> bool {
    a.0 < b.0 || (a.0 == b.0 && (a.1 < b.1 || (a.1 == b.1 && a.2 < b.2)))
}

proof fn lemma_month_and_day_lt(y: nat, p: nat, q: nat, m: nat)
    requires
        1 <= m <= 12,
        p < q < days_from_month(y, m),
    ensures
        month_and_day(y, p, m).0 < month_and_day(y, q, m).0
            || (month_and_day(y, p, m).0 == month_and_day(y, q, m).0 && month_and_day(y, p, m).1 < month_and_day(y, q, m).1),
    decreases 13 - m,
{
    if m == 12 {
        reveal_with_fuel(days_from_month, 2);
    } else if q < days_in_month(y, m) {
    } else if p < days_in_month(y, m) {
        lemma_month_and_day_valid(y, (q - days_in_month(y, m)) as nat, m + 1);
    } else {
        lemma_month_and_day_lt(y, (p - days_in_month(y, m)) as nat, (q - days_in_month(y, m)) as nat, m + 1);
    }
}

proof fn lemma_civil_date_from_lt(y: nat, p: nat, q: nat)
    requires
        p < q,
    ensures
        date_lt(civil_date_from(y, p), civil_date_from(y, q)),
    decreases p,
{
    if q < days_in_year(y) {
        reveal_with_fuel(days_from_month, 13);
        lemma_month_and_day_lt(y, p, q, 1);
    } else if p < days_in_year(y) {
        lemma_civil_date_from_valid(y + 1, (q - days_in_year(y)) as nat);
    } else {
        lemma_civil_date_from_lt(y + 1, (p - days_in_year(y)) as nat, (q - days_in_year(y)) as nat);
    }
}

/// `p + x1 + r1` comes before `p + x2 + r2` when `x1` comes before `x2` and
/// they are of equal length.
proof fn lemma_lex_blocks(p: Seq<char>, x1: Seq<char>, x2: Seq<char>, r1: Seq<char>, r2: Seq<char>)
    requires
        x1.len() == x2.len(),
        lex_lt(x1, x2),
    ensures
        lex_lt(p + x1 + r1, p + x2 + r2),
{
    lemma_lex_heads(x1, x2, r1, r2);
    lemma_lex_tails(p, x1 + r1, x2 + r2);
    assert(p + (x1 + r1) =~= p + x1 + r1);
    assert(p + (x2 + r2) =~= p + x2 + r2);
}

/// The `YYYYMMDDTHHMMSSZ` text of a date and a time of day.
pub open spec fn ts_text(y: nat, m: nat, d: nat, h: nat, mi: nat, se: nat) -> Seq<char> {
    spec_padded(y, 4) + spec_padded(m, 2) + spec_padded(d, 2) + seq!['T']
        + spec_padded(h, 2) + spec_padded(mi, 2) + spec_padded(se, 2) + seq!['Z']
}

/// The texts of two dates in order, whatever the times of day, compare in
/// that order.
proof fn lemma_ts_text_date_order(y1: nat, m1: nat, d1: nat, h1: nat, mi1: nat, s1: nat,
    y2: nat, m2: nat, d2: nat, h2: nat, mi2: nat, s2: nat)
    requires
        date_lt((y1, m1, d1), (y2, m2, d2)),
        y1 <= 9999, y2 <= 9999, m1 < 100, m2 < 100, d1 < 100, d2 < 100,
    ensures
        lex_lt(ts_text(y1, m1, d1, h1, mi1, s1), ts_text(y2, m2, d2, h2, mi2, s2)),
{
    assert(pow10(4) == 10000 && pow10(2) == 100) by { reveal_with_fuel(pow10, 5); }
    lemma_padded_len(y1, 4);
    lemma_padded_len(y2, 4);
    lemma_padded_len(m1, 2);
    lemma_padded_len(m2, 2);
    lemma_padded_len(d1, 2);
    lemma_padded_len(d2, 2);
    let (y14, y24) = (spec_padded(y1, 4), spec_padded(y2, 4));
    let (m12, m22) = (spec_padded(m1, 2), spec_padded(m2, 2));
    let (d12, d22) = (spec_padded(d1, 2), spec_padded(d2, 2));
    let t1 = seq!['T'] + spec_padded(h1, 2) + spec_padded(mi1, 2) + spec_padded(s1, 2) + seq!['Z'];
    let t2 = seq!['T'] + spec_padded(h2, 2) + spec_padded(mi2, 2) + spec_padded(s2, 2) + seq!['Z'];
    let e = Seq::<char>::empty();
    if y1 < y2 {
        lemma_padded_lt(y1, y2, 4);
        assert(ts_text(y1, m1, d1, h1, mi1, s1) =~= e + y14 + (m12 + d12 + t1));
        assert(ts_text(y2, m2, d2, h2, mi2, s2) =~= e + y24 + (m22 + d22 + t2));
        lemma_lex_blocks(e, y14, y24, m12 + d12 + t1, m22 + d22 + t2);
    } else if m1 < m2 {
        lemma_padded_lt(m1, m2, 2);
        assert(ts_text(y1, m1, d1, h1, mi1, s1) =~= y14 + m12 + (d12 + t1));
        assert(ts_text(y2, m2, d2, h2, mi2, s2) =~= y14 + m22 + (d22 + t2));
        lemma_lex_blocks(y14, m12, m22, d12 + t1, d22 + t2);
    } else {
        lemma_padded_lt(d1, d2, 2);
        assert(ts_text(y1, m1, d1, h1, mi1, s1) =~= (y14 + m12) + d12 + t1);
        assert(ts_text(y2, m2, d2, h2, mi2, s2) =~= (y14 + m12) + d22 + t2);
        lemma_lex_blocks(y14 + m12, d12, d22, t1, t2);
    }
}

/// On one date, the texts of two times of day in order compare in that order.
proof fn lemma_ts_text_time_order(y: nat, m: nat, d: nat, h1: nat, mi1: nat, s1: nat, h2: nat, mi2: nat, s2: nat)
    requires
        h1 < h2 || (h1 == h2 && (mi1 < mi2 || (mi1 == mi2 && s1 < s2))),
        h2 < 100, mi2 < 100, s2 < 100,
    ensures
        lex_lt(ts_text(y, m, d, h1, mi1, s1), ts_text(y, m, d, h2, mi2, s2)),
{
    assert(pow10(2) == 100) by { reveal_with_fuel(pow10, 3); }
    let pre = spec_padded(y, 4) + spec_padded(m, 2) + spec_padded(d, 2) + seq!['T'];
    let (h12, h22) = (spec_padded(h1, 2), spec_padded(h2, 2));
    let (mi12, mi22) = (spec_padded(mi1, 2), spec_padded(mi2, 2));
    let (s12, s22) = (spec_padded(s1, 2), spec_padded(s2, 2));
    if h1 < h2 {
        lemma_padded_lt(h1, h2, 2);
        assert(ts_text(y, m, d, h1, mi1, s1) =~= pre + h12 + (mi12 + s12 + seq!['Z']));
        assert(ts_text(y, m, d, h2, mi2, s2) =~= pre + h22 + (mi22 + s22 + seq!['Z']));
        lemma_lex_blocks(pre, h12, h22, mi12 + s12 + seq!['Z'], mi22 + s22 + seq!['Z']);
    } else if mi1 < mi2 {
        lemma_padded_lt(mi1, mi2, 2);
        assert(ts_text(y, m, d, h1, mi1, s1) =~= (pre + h12) + mi12 + (s12 + seq!['Z']));
        assert(ts_text(y, m, d, h2, mi2, s2) =~= (pre + h12) + mi22 + (s22 + seq!['Z']));
        lemma_lex_blocks(pre + h12, mi12, mi22, s12 + seq!['Z'], s22 + seq!['Z']);
    } else {
        lemma_padded_lt(s1, s2, 2);
        assert(ts_text(y, m, d, h1, mi1, s1) =~= (pre + h12 + mi12) + s12 + seq!['Z']);
        assert(ts_text(y, m, d, h2, mi2, s2) =~= (pre + h12 + mi12) + s22 + seq!['Z']);
        lemma_lex_blocks(pre + h12 + mi12, s12, s22, seq!['Z'], seq!['Z']);
    }
}

/// The time of day of two seconds of one day in order: hours, then
/// minutes, then seconds.
proof fn lemma_time_of_day_order(ta: nat, tb: nat)
    requires
        ta < tb < 86400,
    ensures
        ta / 3600 < tb / 3600 || (ta / 3600 == tb / 3600 && ((ta % 3600) / 60 < (tb % 3600) / 60
            || ((ta % 3600) / 60 == (tb % 3600) / 60 && ta % 60 < tb % 60))),
        tb / 3600 < 24, (tb % 3600) / 60 < 60, tb % 60 < 60,
{
    assert(ta / 3600 <= tb / 3600) by (nonlinear_arith) requires ta < tb;
    if ta / 3600 == tb / 3600 {
        assert(ta % 3600 < tb % 3600) by (nonlinear_arith) requires ta < tb, ta / 3600 == tb / 3600;
        assert((ta % 3600) / 60 <= (tb % 3600) / 60) by (nonlinear_arith) requires ta % 3600 < tb % 3600;
        if (ta % 3600) / 60 == (tb % 3600) / 60 {
            assert(ta % 60 < tb % 60) by (nonlinear_arith)
                requires ta % 3600 < tb % 3600, (ta % 3600) / 60 == (tb % 3600) / 60;
            assert(ta % 3600 % 60 == ta % 60 && tb % 3600 % 60 == tb % 60) by (nonlinear_arith);
        }
    }
    assert(tb / 3600 < 24) by (nonlinear_arith) requires tb < 86400;
}

/// Timestamp names sort in time order: of two seconds in years up to 9999,
/// the earlier one's `YYYYMMDDTHHMMSSZ` text comes first in character order.
pub proof fn lemma_utc_timestamp_order(a: nat, b: nat)
    requires
        a < b,
        spec_civil_from_days(b / 86400).0 <= 9999,
    ensures
        lex_lt(spec_utc_timestamp(a), spec_utc_timestamp(b)),
{
    let da = a / 86400;
    let db = b / 86400;
    let ta = a % 86400;
    let tb = b % 86400;
    assert(da <= db) by (nonlinear_arith) requires a < b, da == a / 86400, db == b / 86400;
    let ca = spec_civil_from_days(da);
    let cb = spec_civil_from_days(db);
    lemma_civil_date_valid(da);
    lemma_civil_date_valid(db);
    assert(days_in_month(ca.0, ca.1) <= 31 && days_in_month(cb.0, cb.1) <= 31);
    assert(spec_utc_timestamp(a) == ts_text(ca.0, ca.1, ca.2, ta / 3600, (ta % 3600) / 60, ta % 60));
    assert(spec_utc_timestamp(b) == ts_text(cb.0, cb.1, cb.2, tb / 3600, (tb % 3600) / 60, tb % 60));
    if da < db {
        lemma_civil_date_from_lt(1970, da, db);
        lemma_ts_text_date_order(ca.0, ca.1, ca.2, ta / 3600, (ta % 3600) / 60, ta % 60,
            cb.0, cb.1, cb.2, tb / 3600, (tb % 3600) / 60, tb % 60);
    } else {
        assert(ta < tb) by (nonlinear_arith)
            requires a < b, a / 86400 == b / 86400, ta == a % 86400, tb == b % 86400;
        lemma_time_of_day_order(ta, tb);
        lemma_ts_text_time_order(ca.0, ca.1, ca.2, ta / 3600, (ta % 3600) / 60, ta % 60,
            tb / 3600, (tb % 3600) / 60, tb % 60);
    }
}

/// The string of one decimal digit.
fn digit_str(d: u64) -> (r: &'static str)
    requires
        d < 10,
    ensures
        r@ == seq![digit_char(d as nat)],
{
    if d == 0 {
        proof { reveal_strlit("0"); }
        "0"
    } else if d == 1 {
        proof { reveal_strlit("1"); }
        "1"
    } else if d == 2 {
        proof { reveal_strlit("2"); }
        "2"
    } else if d == 3 {
        proof { reveal_strlit("3"); }
        "3"
    } else if d == 4 {
        proof { reveal_strlit("4"); }
        "4"
    } else if d == 5 {
        proof { reveal_strlit("5"); }
        "5"
    } else if d == 6 {
        proof { reveal_strlit("6"); }
        "6"
    } else if d == 7 {
        proof { reveal_strlit("7"); }
        "7"
    } else if d == 8 {
        proof { reveal_strlit("8"); }
        "8"
    } else {
        proof { reveal_strlit("9"); }
        "9"
    }
}

/// Number of decimal digits of `n`.
fn decimal_len(n: u64) -> (r: usize)
    ensures
        r == spec_decimal(n as nat).len(),
    decreases n,
{
    if n < 10 {
        1
    } else {
        let k = decimal_len(n / 10);
        proof {
            assert(pow10(20) == 100000000000000000000nat) by { reveal_with_fuel(pow10, 21); }
            lemma_decimal_len_le(n as nat, 19);
        }
        k + 1
    }
}

/// `n` has at most `k + 1` digits when `n < 10^(k+1)`.
proof fn lemma_decimal_len_le(n: nat, k: nat)
    requires
        n < pow10(k + 1),
    ensures
        spec_decimal(n).len() <= k + 1,
    decreases n,
{
    if n >= 10 {
        if k == 0 {
            assert(pow10(1) == 10) by { reveal_with_fuel(pow10, 2); }
        } else {
            assert(pow10(k + 1) == 10 * pow10(k));
            assert(n / 10 < pow10(k)) by (nonlinear_arith)
                requires n < 10 * pow10(k);
            lemma_decimal_len_le(n / 10, (k - 1) as nat);
        }
    }
}

/// Ten to the power `k`.
pub open spec fn pow10(k: nat) -> nat
    decreases k,
{
    if k == 0 { 1 } else { 10 * pow10((k - 1) as nat) }
}

/// Append the decimal digits of `n`.
fn push_decimal(s: &mut String, n: u64)
    ensures
        final(s)@ == old(s)@ + spec_decimal(n as nat),
    decreases n,
{
    if n >= 10 {
        push_decimal(s, n / 10);
    }
    s.append(digit_str(n % 10));
    assert(n < 10 ==> n % 10 == n);
}

/// Append the decimal digits of `n`, padded with zeros to at least `width` characters.
pub fn push_padded(s: &mut String, n: u64, width: usize)
    ensures
        final(s)@ == old(s)@ + spec_padded(n as nat, width as nat),
{
    let len = decimal_len(n);
    let ghost s0 = s@;
    let mut k: usize = len;
    while k < width
        invariant
            len == spec_decimal(n as nat).len(),
            len <= k <= (if width > len { width } else { len }),
            s@ == s0 + Seq::new((k - len) as nat, |i: int| '0'),
        decreases width - k,
    {
        proof { reveal_strlit("0"); }
        s.append("0");
        k = k + 1;
        assert(s@ =~= s0 + Seq::new((k - len) as nat, |i: int| '0'));
    }
    push_decimal(s, n);
    assert(s@ =~= s0 + spec_padded(n as nat, width as nat));
}

/// Whether `y` is a leap year.
fn is_leap(y: u64) -> (r: bool)
    ensures
        r == is_leap_year(y as nat),
{
    y % 4 == 0 && (y % 100 != 0 || y % 400 == 0)
}

/// The number of days in year `y`.
fn year_days(y: u64) -> (r: u64)
    ensures
        r == days_in_year(y as nat),
{
    if is_leap(y) { 366 } else { 365 }
}

/// The number of days in month `m` of year `y`.
fn month_days(y: u64, m: u64) -> (r: u64)
    ensures
        r == days_in_month(y as nat, m as nat),
{
    if m == 2 {
        if is_leap(y) { 29 } else { 28 }
    } else if m == 4 || m == 6 || m == 9 || m == 11 {
        30
    } else {
        31
    }
}

/// The `(year, month, day)` of the day `days` after 1970-01-01.
fn civil_from_days(days: u64) -> (r: (u64, u64, u64))
    requires
        days <= u64::MAX / 86400,
    ensures
        (r.0 as nat, r.1 as nat, r.2 as nat) == spec_civil_from_days(days as nat),
{
    let cycles: u64 = days / 146097;
    let mut rem: u64 = days % 146097;
    let y0: u64 = 1970 + 400 * cycles;
    let mut y: u64 = y0;
    proof {
        assert(days == rem + 146097 * cycles) by (nonlinear_arith)
            requires cycles == days / 146097, rem == days % 146097;
        lemma_skip_cycles(1970, cycles as nat, rem as nat);
    }
    let ghost rem0 = rem;
    while rem >= year_days(y)
        invariant
            y0 <= y,
            rem + 365 * (y - y0) <= rem0,
            rem0 < 146097,
            y0 == 1970 + 400 * cycles,
            cycles <= u64::MAX / 86400 / 146097,
            civil_date_from(y as nat, rem as nat) == spec_civil_from_days(days as nat),
        decreases rem,
    {
        rem = rem - year_days(y);
        y = y + 1;
    }
    let mut m: u64 = 1;
    let mut doy: u64 = rem;
    proof {
        assert(rem < days_in_year(y as nat));
    }
    while m < 12 && doy >= month_days(y, m)
        invariant
            1 <= m <= 12,
            month_and_day(y as nat, doy as nat, m as nat) == month_and_day(y as nat, rem as nat, 1),
            doy <= rem,
            rem < 366,
        decreases 12 - m,
    {
        doy = doy - month_days(y, m);
        m = m + 1;
    }
    (y, m, doy + 1)
}

/// Format the second `secs` after the Unix epoch as `YYYYMMDDTHHMMSSZ` (UTC).
pub fn format_unix_secs(total_secs: u64) -> (r: String)
    ensures
        r@ == spec_utc_timestamp(total_secs as nat),
{
    let time_of_day = total_secs % 86400;
    let hours = time_of_day / 3600;
    let minutes = (time_of_day % 3600) / 60;
    let seconds = time_of_day % 60;

    let (y, m, d) = civil_from_days(total_secs / 86400);

    let mut buf = String::new();
    push_padded(&mut buf, y, 4);
    push_padded(&mut buf, m, 2);
    push_padded(&mut buf, d, 2);
    proof { reveal_strlit("T"); reveal_strlit("Z"); }
    buf.append("T");
    push_padded(&mut buf, hours, 2);
    push_padded(&mut buf, minutes, 2);
    push_padded(&mut buf, seconds, 2);
    buf.append("Z");
    buf
}

/// Format a point in time as `YYYYMMDDTHHMMSSZ` (UTC), to the second.
pub fn format_utc_timestamp(time: SystemTime) -> (r: String)
    ensures
        r@ == spec_utc_timestamp(time@ / 1_000_000_000),
{
    format_unix_secs(time.unix_secs())
}

} // verus!
