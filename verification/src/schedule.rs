//! The week and the time of day, as the filters of a Perseus list see them: days and time
//! ranges, how they are read and shown, and the system clock.

use vstd::prelude::*;

use std::time::SystemTime;
use std::time::SystemTimeError;
use std::time::Duration;

use crate::error::{ParseFreqsError, ParseFreqsFault};
use crate::text::{
    chars_of, decimal, parse_unsigned, parse_unsigned_range, push_decimal, string_from_chars,
    string_from_range, trim, trim_range, IntErrorKind, split, split_ranges, range_equals,
    lemma_parse_one_char, lemma_parse_decimal, lemma_decimal_digits, lemma_split_prefix, lemma_split_none, is_space,
    is_digit,
};

verus! {

// ---------------------------------------------------------------------------
// The clock
// ---------------------------------------------------------------------------

#[verifier::external_type_specification]
#[verifier::external_body]
pub struct ExSystemTime(SystemTime);

#[verifier::external_type_specification]
#[verifier::external_body]
pub struct ExSystemTimeError(SystemTimeError);

/// `SystemTime::now`: the current time of the system clock. Nothing is promised of it.
#[verifier::external_body]
fn system_time_now() -> SystemTime {
    SystemTime::now()
}

/// `SystemTime::duration_since` with the Unix epoch as the earlier time: how long after
/// the epoch `t` lies, or an error where `t` lies before it. Nothing is promised of the
/// result, which rests on the clock.
#[verifier::external_body]
fn duration_since_epoch(t: SystemTime) -> Result<Duration, SystemTimeError> {
    t.duration_since(std::time::UNIX_EPOCH)
}

/// `Duration::as_secs`: the whole seconds of `d`. Nothing is promised of it: a `Duration`
/// is opaque here, so no clause could speak of its seconds.
#[verifier::external_body]
fn duration_secs(d: &Duration) -> u64 {
    d.as_secs()
}

/// Whole seconds since the Unix epoch by the system clock; a clock set before the epoch
/// reads as the epoch.
pub fn clock_secs() -> u64 {
    match duration_since_epoch(system_time_now()) {
        Ok(d) => duration_secs(&d),
        Err(_) => 0,
    }
}

// ---------------------------------------------------------------------------
// Days of the week
// ---------------------------------------------------------------------------

/// The day of the week `secs` seconds after the Unix epoch, 1 to 7, counted so that the
/// epoch (a Thursday) is day 5.
pub open spec fn weekday_of(secs: nat) -> nat {
    (secs / 86400 + 4) % 7 + 1
}

/// The day number that a list digit `d` stands for: `(d + 6) % 7 + 1`, so that 0 and 7 are
/// both day 7.
pub open spec fn day_number(d: u8) -> nat {
    ((d + 6) % 7 + 1) as nat
}

/// A day, or a range of days, in a Perseus table: `from`, or `from` through `to`.
#[derive(Debug, Clone, Copy, PartialEq, Eq, Structural)]
pub struct Days {
    pub from: u8,
    pub to: Option<u8>,
}

/// Whether the day range `d` takes in the day `today`.
pub open spec fn days_cover(d: Days, today: nat) -> bool {
    match d.to {
        None => day_number(d.from) == today,
        Some(t) => day_number(d.from) <= today <= day_number(t),
    }
}

/// The days listed in the (trimmed) text `t`: each character a digit, a digit followed by
/// `-` and another digit a range, and a digit followed by a final `-` a range to day 7;
/// or why `t` is no such list.
pub open spec fn parse_days(t: Seq<char>) -> Result<Seq<Days>, IntErrorKind>
    decreases t.len(),
{
    if t.len() == 0 {
        Ok(seq![])
    } else {
        match parse_unsigned(t.take(1), 255) {
            Err(k) => Err(k),
            Ok(from) => if t.len() >= 2 && t[1] == '-' {
                if t.len() >= 3 {
                    match parse_unsigned(t.subrange(2, 3), 255) {
                        Err(k) => Err(k),
                        Ok(to) => match parse_days(t.skip(3)) {
                            Err(k) => Err(k),
                            Ok(rest) => Ok(seq![Days { from: from as u8, to: Some(to as u8) }]
                                + rest),
                        },
                    }
                } else {
                    Ok(seq![Days { from: from as u8, to: Some(7) }])
                }
            } else {
                match parse_days(t.skip(1)) {
                    Err(k) => Err(k),
                    Ok(rest) => Ok(seq![Days { from: from as u8, to: None }] + rest),
                }
            },
        }
    }
}

/// The text `Days` is shown as: `from`, or `from-to`.
pub open spec fn days_text(d: Days) -> Seq<char> {
    match d.to {
        None => decimal(d.from as nat),
        Some(t) => decimal(d.from as nat) + seq!['-'] + decimal(t as nat),
    }
}

/// Which day of the week it is `secs` seconds after the Unix epoch.
pub fn weekday_at(secs: u64) -> (r: u8)
    ensures
        r == weekday_of(secs as nat),
        1 <= r <= 7,
{
    ((secs / 86400 + 4) % 7 + 1) as u8
}

impl Days {
    /// Which day of the week it is now by the system clock, 1 to 7.
    pub fn today() -> (r: u8)
        ensures
            1 <= r <= 7,
    {
        weekday_at(clock_secs())
    }

    /// Whether this range takes in the day `today`.
    pub fn is_on(&self, today: u8) -> (b: bool)
        requires
            self.from <= 249,
            self.to matches Some(t) ==> t <= 249,
        ensures
            b == days_cover(*self, today as nat),
    {
        let from = (self.from + 6) % 7 + 1;
        match self.to {
            None => from == today,
            Some(to) => from <= today && today <= (to + 6) % 7 + 1,
        }
    }

    /// Whether this range takes in today, by the system clock.
    pub fn is_now(&self) -> (b: bool)
        requires
            self.from <= 249,
            self.to matches Some(t) ==> t <= 249,
        ensures
            exists|today: nat| 1 <= today <= 7 && b == days_cover(*self, today),
    {
        let today = Self::today();
        self.is_on(today)
    }

    /// Reads a list of days such as `1-5` or `67`, after trimming white space.
    pub fn from_str(s: &str) -> (r: Result<Vec<Days>, ParseFreqsError>)
        ensures
            match r {
                Ok(ds) => parse_days(trim(s@)) == Ok::<Seq<Days>, IntErrorKind>(ds@),
                Err(e) => parse_days(trim(s@)) matches Err(k) && e@ == ParseFreqsFault::ParseDay(
                    k,
                    trim(s@),
                ),
            },
    {
        let v = chars_of(s);
        assert(v@.subrange(0, v@.len() as int) =~= v@);
        Self::from_chars(&v, 0, v.len())
    }

    /// Reads a list of days from `v[a..b]`, after trimming white space.
    pub fn from_chars(v: &Vec<char>, a: usize, b: usize) -> (r: Result<Vec<Days>, ParseFreqsError>)
        requires
            a <= b <= v.len(),
        ensures
            match r {
                Ok(ds) => parse_days(trim(v@.subrange(a as int, b as int))) == Ok::<
                    Seq<Days>,
                    IntErrorKind,
                >(ds@),
                Err(e) => parse_days(trim(v@.subrange(a as int, b as int))) matches Err(k) && e@
                    == ParseFreqsFault::ParseDay(k, trim(v@.subrange(a as int, b as int))),
            },
            r matches Ok(ds) ==> forall|i: int|
                0 <= i < ds@.len() ==> (#[trigger] ds@[i]).from <= 9 && (ds@[i].to matches Some(
                    t,
                ) ==> t <= 9),
    {
        let (lo, hi) = trim_range(v, a, b);
        let ghost t = v@.subrange(lo as int, hi as int);
        let mut days: Vec<Days> = Vec::new();
        let mut i = lo;
        while i < hi
            invariant
                lo <= i <= hi <= v.len(),
                a <= lo,
                t == v@.subrange(lo as int, hi as int),
                t == trim(v@.subrange(a as int, b as int)),
                forall|j: int|
                    0 <= j < days@.len() ==> (#[trigger] days@[j]).from <= 9 && (days@[j].to matches Some(
                        t,
                    ) ==> t <= 9),
                parse_days(t) == (match parse_days(v@.subrange(i as int, hi as int)) {
                    Ok(rest) => Ok(days@ + rest),
                    Err(k) => Err(k),
                }),
            decreases hi - i,
        {
            let ghost u = v@.subrange(i as int, hi as int);
            assert(u.take(1) =~= v@.subrange(i as int, i + 1));
            proof {
                lemma_parse_one_char(v@.subrange(i as int, i + 1), 255);
            }
            let from = match parse_unsigned_range(v, i, i + 1, 255) {
                Ok(n) => n as u8,
                Err(k) => {
                    let e = ParseFreqsError::ParseDay(k, string_from_range(v, lo, hi));
                    return Err(e);
                },
            };
            if i + 1 < hi && v[i + 1] == '-' {
                assert(u[1] == v@[i + 1]);
                if i + 2 < hi {
                    assert(u.subrange(2, 3) =~= v@.subrange(i + 2, i + 3));
                    proof {
                        lemma_parse_one_char(v@.subrange(i + 2, i + 3), 255);
                    }
                    let to = match parse_unsigned_range(v, i + 2, i + 3, 255) {
                        Ok(n) => n as u8,
                        Err(k) => {
                            let e = ParseFreqsError::ParseDay(k, string_from_range(v, lo, hi));
                            return Err(e);
                        },
                    };
                    let ghost before = days@;
                    days.push(Days { from, to: Some(to) });
                    assert(u.skip(3) =~= v@.subrange(i + 3, hi as int));
                    proof {
                        match parse_days(v@.subrange(i + 3, hi as int)) {
                            Ok(rest) => {
                                assert(before + (seq![Days { from, to: Some(to) }] + rest)
                                    =~= days@ + rest);
                            },
                            Err(_) => {},
                        }
                    }
                    i = i + 3;
                } else {
                    let ghost before = days@;
                    days.push(Days { from, to: Some(7) });
                    assert(v@.subrange(hi as int, hi as int) =~= Seq::<char>::empty());
                    assert(before + seq![Days { from, to: Some(7) }] =~= days@ + Seq::<Days>::empty());
                    i = hi;
                }
            } else {
                proof {
                    if i + 1 < hi {
                        assert(u[1] == v@[i + 1]);
                    }
                }
                let ghost before = days@;
                days.push(Days { from, to: None });
                assert(u.skip(1) =~= v@.subrange(i + 1, hi as int));
                proof {
                    match parse_days(v@.subrange(i + 1, hi as int)) {
                        Ok(rest) => {
                            assert(before + (seq![Days { from, to: None }] + rest) =~= days@ + rest);
                        },
                        Err(_) => {},
                    }
                }
                i = i + 1;
            }
        }
        assert(v@.subrange(hi as int, hi as int) =~= Seq::<char>::empty());
        assert(days@ + Seq::<Days>::empty() =~= days@);
        Ok(days)
    }

    /// Appends the text of this range to `out`.
    pub fn push_text(&self, out: &mut Vec<char>)
        ensures
            final(out)@ == old(out)@ + days_text(*self),
    {
        push_decimal(out, self.from as u64);
        match self.to {
            None => {},
            Some(t) => {
                out.push('-');
                push_decimal(out, t as u64);
                assert(final(out)@ =~= old(out)@ + days_text(*self));
            },
        }
    }

    /// The text this range is shown as: `from`, or `from-to`.
    pub fn to_string(&self) -> (s: String)
        ensures
            s@ == days_text(*self),
    {
        let mut out: Vec<char> = Vec::new();
        self.push_text(&mut out);
        assert(out@ =~= days_text(*self));
        string_from_chars(out)
    }
}


// ---------------------------------------------------------------------------
// Times of day
// ---------------------------------------------------------------------------

/// The time of day `secs` seconds after the Unix epoch, in UTC, as hours times 100 plus
/// minutes.
pub open spec fn time_of_day_of(secs: nat) -> nat {
    ((secs / 3600) % 24 * 100 + (secs / 60) % 60) % 2400
}

/// A range of times of day in UTC, each as hours times 100 plus minutes: from `from` up to,
/// not including, `to`.
#[derive(Debug, Clone, Copy, PartialEq, Eq, Structural)]
pub struct TimeUtc {
    pub from: u16,
    pub to: u16,
}

/// The time range the text `s` writes, or why it is none: `0.` is the empty range from
/// 0 to 0; any other text must be two `u16` around a single `-`.
pub open spec fn parse_time(s: Seq<char>) -> Result<TimeUtc, ParseFreqsFault> {
    if s == seq!['0', '.'] {
        Ok(TimeUtc { from: 0, to: 0 })
    } else {
        let p = split(s, '-');
        if p.len() != 2 {
            Err(ParseFreqsFault::TooManyDashes(s))
        } else {
            match parse_unsigned(p[0], 65535) {
                Err(k) => Err(ParseFreqsFault::ParseTimeUtc(k, s)),
                Ok(from) => match parse_unsigned(p[1], 65535) {
                    Err(k) => Err(ParseFreqsFault::ParseTimeUtc(k, s)),
                    Ok(to) => Ok(TimeUtc { from: from as u16, to: to as u16 }),
                },
            }
        }
    }
}

/// Whether the time of day `now` lies in the range `t`.
pub open spec fn time_covers(t: TimeUtc, now: nat) -> bool {
    t.from <= now < t.to
}

/// The text a time range is shown as: both ends modulo 2400, around a dash.
pub open spec fn time_text(t: TimeUtc) -> Seq<char> {
    decimal((t.from % 2400) as nat) + seq!['-'] + decimal((t.to % 2400) as nat)
}

/// The time of day `secs` seconds after the Unix epoch.
pub fn time_of_day_at(secs: u64) -> (r: u16)
    ensures
        r == time_of_day_of(secs as nat),
        r < 2400,
{
    let hours = ((secs / 60 / 60) % 24) as u16;
    let minutes = ((secs / 60) % 60) as u16;
    assert(secs / 60 / 60 == secs / 3600) by (nonlinear_arith);
    (hours * 100 + minutes) % 2400
}

impl TimeUtc {
    /// The time of day now by the system clock, in UTC.
    pub fn now() -> (r: u16)
        ensures
            r < 2400,
    {
        time_of_day_at(clock_secs())
    }

    /// Whether the time of day `now` lies in this range.
    pub fn is_at(&self, now: u16) -> (b: bool)
        ensures
            b == time_covers(*self, now as nat),
    {
        self.from <= now && now < self.to
    }

    /// Whether the time of day now, by the system clock, lies in this range.
    pub fn is_now(&self) -> (b: bool)
        ensures
            exists|now: nat| now < 2400 && b == time_covers(*self, now),
    {
        let now = Self::now();
        self.is_at(now)
    }

    /// Reads a time range such as `0600-1200`, or `0.` for the empty range.
    pub fn from_str(s: &str) -> (r: Result<TimeUtc, ParseFreqsError>)
        ensures
            match r {
                Ok(t) => parse_time(s@) == Ok::<TimeUtc, ParseFreqsFault>(t),
                Err(e) => parse_time(s@) == Err::<TimeUtc, ParseFreqsFault>(e@),
            },
    {
        let v = chars_of(s);
        assert(v@.subrange(0, v@.len() as int) =~= v@);
        Self::from_chars(&v, 0, v.len())
    }

    /// Reads a time range from `v[a..b]`.
    pub fn from_chars(v: &Vec<char>, a: usize, b: usize) -> (r: Result<TimeUtc, ParseFreqsError>)
        requires
            a <= b <= v.len(),
        ensures
            match r {
                Ok(t) => parse_time(v@.subrange(a as int, b as int)) == Ok::<
                    TimeUtc,
                    ParseFreqsFault,
                >(t),
                Err(e) => parse_time(v@.subrange(a as int, b as int)) == Err::<
                    TimeUtc,
                    ParseFreqsFault,
                >(e@),
            },
    {
        let zero = vec!['0', '.'];
        assert(zero@ =~= seq!['0', '.']);
        if range_equals(v, a, b, &zero) {
            return Ok(TimeUtc { from: 0, to: 0 });
        }
        let parts = split_ranges(v, a, b, '-');
        if parts.len() != 2 {
            return Err(ParseFreqsError::TooManyDashes(string_from_range(v, a, b)));
        }
        let (a0, b0) = parts[0];
        let (a1, b1) = parts[1];
        let from = match parse_unsigned_range(v, a0, b0, 65535) {
            Ok(n) => n as u16,
            Err(k) => {
                return Err(ParseFreqsError::ParseTimeUtc(k, string_from_range(v, a, b)));
            },
        };
        let to = match parse_unsigned_range(v, a1, b1, 65535) {
            Ok(n) => n as u16,
            Err(k) => {
                return Err(ParseFreqsError::ParseTimeUtc(k, string_from_range(v, a, b)));
            },
        };
        Ok(TimeUtc { from, to })
    }

    /// Appends the text of this range to `out`.
    pub fn push_text(&self, out: &mut Vec<char>)
        ensures
            final(out)@ == old(out)@ + time_text(*self),
    {
        push_decimal(out, (self.from % 2400) as u64);
        out.push('-');
        push_decimal(out, (self.to % 2400) as u64);
        assert(final(out)@ =~= old(out)@ + time_text(*self));
    }

    /// The text this range is shown as: both ends modulo 2400, around a dash.
    pub fn to_string(&self) -> (s: String)
        ensures
            s@ == time_text(*self),
    {
        let mut out: Vec<char> = Vec::new();
        self.push_text(&mut out);
        assert(out@ =~= time_text(*self));
        string_from_chars(out)
    }
}


// ---------------------------------------------------------------------------
// Laws
// ---------------------------------------------------------------------------

proof fn lemma_trim_digits(s: Seq<char>)
    requires
        forall|i: int| 0 <= i < s.len() ==> is_digit(#[trigger] s[i]) || s[i] == '-',
    ensures
        trim(s) == s,
{
    if s.len() > 0 {
        assert(!is_space(s[0]));
        assert(!is_space(s.last()));
    }
}

/// Reading back the text of a day or day range gives it back, where its days are single
/// digits (as the days read from a table are).
pub proof fn lemma_days_text_round_trip(d: Days)
    requires
        d.from <= 9,
        d.to matches Some(t) ==> t <= 9,
    ensures
        parse_days(trim(days_text(d))) == Ok::<Seq<Days>, IntErrorKind>(seq![d]),
{
    let t = days_text(d);
    let f = decimal(d.from as nat);
    lemma_decimal_digits(d.from as nat);
    lemma_parse_decimal(d.from as nat, 255);
    assert(f.len() == 1) by {
        reveal_with_fuel(decimal, 2);
    }
    assert(parse_days(Seq::<char>::empty()) == Ok::<Seq<Days>, IntErrorKind>(seq![]));
    match d.to {
        None => {
            assert(t == f);
            assert(t.take(1) =~= f);
            assert(t.skip(1) =~= Seq::<char>::empty());
            assert(seq![d] + Seq::<Days>::empty() =~= seq![d]);
            assert(is_digit(t[0]));
            lemma_trim_digits(t);
            assert(parse_days(t) == Ok::<Seq<Days>, IntErrorKind>(seq![d]));
        },
        Some(to) => {
            let g = decimal(to as nat);
            lemma_decimal_digits(to as nat);
            lemma_parse_decimal(to as nat, 255);
            assert(g.len() == 1) by {
                reveal_with_fuel(decimal, 2);
            }
            assert(t == f + seq!['-'] + g);
            assert(t.take(1) =~= f);
            assert(t[1] == '-');
            assert(t.subrange(2, 3) =~= g);
            assert(t.skip(3) =~= Seq::<char>::empty());
            assert(seq![d] + Seq::<Days>::empty() =~= seq![d]);
            assert(t[0] == f[0]);
            assert(t[2] == g[0]);
            assert(is_digit(t[0]) && is_digit(t[2]));
            lemma_trim_digits(t);
            assert(parse_days(t) == Ok::<Seq<Days>, IntErrorKind>(seq![d]));
        },
    }
}

/// Reading back the text of a time range gives it back, where both ends are times of day
/// (below 2400).
pub proof fn lemma_time_text_round_trip(t: TimeUtc)
    requires
        t.from < 2400,
        t.to < 2400,
    ensures
        parse_time(time_text(t)) == Ok::<TimeUtc, ParseFreqsFault>(t),
{
    let a = decimal(t.from as nat);
    let b = decimal(t.to as nat);
    lemma_decimal_digits(t.from as nat);
    lemma_decimal_digits(t.to as nat);
    lemma_parse_decimal(t.from as nat, 65535);
    lemma_parse_decimal(t.to as nat, 65535);
    assert(t.from % 2400 == t.from && t.to % 2400 == t.to);
    let s = time_text(t);
    assert(s == a + seq!['-'] + b);
    assert forall|i: int| 0 <= i < a.len() implies #[trigger] a[i] != '-' by {
        assert(is_digit(a[i]));
    }
    assert forall|i: int| 0 <= i < b.len() implies #[trigger] b[i] != '-' by {
        assert(is_digit(b[i]));
    }
    lemma_split_prefix(a, '-', b);
    lemma_split_none(b, '-');
    assert(seq![a] + seq![b] =~= seq![a, b]);
    if s == seq!['0', '.'] {
        assert(s[a.len() as int] == '-');
    }
}

} // verus!
