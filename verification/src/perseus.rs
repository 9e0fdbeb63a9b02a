//! Perseus user lists: a header line whose column titles sit over a ruler line of `-` and
//! `+`, the `+` marking where columns begin; then one line per entry, cut at the same places.
//! The marks count bytes of the UTF-8 text: the `+` by their place in the trimmed ruler, the
//! last mark by the ruler's length in bytes.

use vstd::prelude::*;

use crate::error::{ParseFreqsError, ParseFreqsFault};
use crate::freq::{empty_freq, Freq, FreqView, NotesView};
use crate::freqs::views;
use crate::schedule::{day_number, days_cover, parse_days, parse_time, time_covers, Days, TimeUtc};
use crate::text::{
    chars_of, first_word, first_word_range, lemma_trim_idempotent, line_ranges, byte_len, ascii_at,
    byte_slice, byte_count, ascii_at_in, byte_slice_in, digit_value, is_digit, fold_digits,
    IntErrorKind,
    lines, parse_unsigned, parse_unsigned_range, range_equals, string_from_range, trim,
    trim_range,
};

verus! {

/// A moment as the filters of a Perseus list see it: the day of the week (1 to 7, see
/// [`crate::schedule::weekday_of`]) and the time of day in UTC (hours times 100 plus minutes).
#[derive(Debug, Clone, Copy, PartialEq, Eq, Structural)]
pub struct Clock {
    pub weekday: u8,
    pub time_of_day: u16,
}

impl Clock {
    /// The moment now, by the system clock.
    pub fn now() -> (c: Clock)
        ensures
            1 <= c.weekday <= 7,
            c.time_of_day < 2400,
    {
        Clock { weekday: Days::today(), time_of_day: TimeUtc::now() }
    }
}

/// What a column of a Perseus list does with its fields.
#[derive(Debug, Clone, Copy, PartialEq, Eq, Structural)]
pub enum PerseusColumn {
    /// A time range; an entry outside it now is left out.
    Time,
    /// A column without a title; it keeps every entry.
    Untitled,
    /// A list of days; an entry on none of them today is left out.
    Days,
    /// The frequency in kilohertz.
    Kilohertz,
    /// The ITU country code.
    Uti,
    /// The station.
    Station,
    /// The language.
    Language,
    /// The location of the transmitter.
    Location,
}

/// The outcome of reading a Perseus list: a value, an error, or an input on which the
/// reading cannot go on (a column that starts beyond the header, a column that ends before
/// it starts, a cut that falls inside a character of more than one byte, a frequency too
/// large for `u64` in hertz).
pub enum Reading<T, E> {
    Done(T),
    Failed(E),
    Stuck,
}

/// The column a title names.
pub open spec fn perseus_column(name: Seq<char>) -> Option<PerseusColumn> {
    if name == seq!['T', 'i', 'm', 'e', '(', 'U', 'T', 'C', ')'] {
        Some(PerseusColumn::Time)
    } else if name.len() == 0 {
        Some(PerseusColumn::Untitled)
    } else if name == seq!['D', 'a', 'y', 's'] {
        Some(PerseusColumn::Days)
    } else if name == seq!['k', 'H', 'z'] {
        Some(PerseusColumn::Kilohertz)
    } else if name == seq!['I', 'T', 'U'] {
        Some(PerseusColumn::Uti)
    } else if name == seq!['S', 't', 'a', 't', 'i', 'o', 'n'] {
        Some(PerseusColumn::Station)
    } else if name == seq!['L', 'a', 'n', 'g', '.'] {
        Some(PerseusColumn::Language)
    } else if name == seq!['L', 'o', 'c', 'a', 't', 'i', 'o', 'n'] {
        Some(PerseusColumn::Location)
    } else {
        None
    }
}

/// The number of leading `+` and `-` in `t`.
pub open spec fn ruler_len(t: Seq<char>) -> nat
    decreases t.len(),
{
    if t.len() > 0 && (t[0] == '+' || t[0] == '-') {
        1 + ruler_len(t.drop_first())
    } else {
        0
    }
}

/// The positions of `+` among the first `n` characters of `t`, in order.
pub open spec fn plus_positions(t: Seq<char>, n: nat) -> Seq<int>
    decreases n,
{
    if n == 0 {
        Seq::empty()
    } else {
        plus_positions(t, (n - 1) as nat) + (if t[n - 1] == '+' {
            seq![n - 1]
        } else {
            Seq::empty()
        })
    }
}

/// Where the header line and the column marks are, reading lines from `p` on: each line
/// whose trimmed text starts with `+` and `-` adds the positions of its `+` up to the first
/// other character; a line made of them only (or blank) is the ruler, which adds its length
/// in bytes
/// and ends the search; any other line becomes the header. The result is the header, the
/// marks, and the index of the first line after the ruler.
pub open spec fn perseus_layout(ls: Seq<Seq<char>>, p: nat, header: Seq<char>, marks: Seq<int>) -> (
    Seq<char>,
    Seq<int>,
    nat,
)
    decreases ls.len() - p,
{
    if p >= ls.len() {
        (header, marks, p)
    } else {
        let t = trim(ls[p as int]);
        let n = ruler_len(t);
        let m = marks + plus_positions(t, n);
        if n == t.len() {
            (header, m.push(byte_len(ls[p as int]) as int), p + 1)
        } else {
            perseus_layout(ls, p + 1, ls[p as int], m)
        }
    }
}

/// The smaller of `a` and `b`.
pub open spec fn min(a: int, b: int) -> int {
    if a < b {
        a
    } else {
        b
    }
}

/// Where the title over byte `s` of `h` starts: `s` moves left while neither the byte at it
/// nor the one before it is a space; nothing where a byte looked at is not a whole one-byte
/// character (where `&h[s..=s]` panics).
pub open spec fn word_start(h: Seq<char>, s: int) -> Option<int>
    decreases s,
{
    match ascii_at(h, s) {
        None => None,
        Some(c) => if c == ' ' || s < 1 {
            Some(s)
        } else {
            match ascii_at(h, s - 1) {
                None => None,
                Some(d) => if d == ' ' {
                    Some(s)
                } else {
                    word_start(h, s - 1)
                },
            }
        },
    }
}

/// The title of the column from byte mark `i0` to byte mark `i1` in the header `h`.
pub open spec fn column_title(h: Seq<char>, i0: int, i1: int) -> Reading<Seq<char>, ParseFreqsFault> {
    let hb = byte_len(h) as int;
    let s0 = min(i0, hb);
    let e = min(i1, hb);
    if s0 >= hb {
        Reading::Stuck
    } else {
        match word_start(h, s0) {
            None => Reading::Stuck,
            Some(s) => match byte_slice(h, s, e) {
                None => Reading::Stuck,
                Some(t) => Reading::Done(first_word(trim(t))),
            },
        }
    }
}

/// The columns between each two neighbouring marks from the `k`-th on, or the first title
/// that names none.
pub open spec fn perseus_header(h: Seq<char>, marks: Seq<int>, k: nat) -> Reading<
    Seq<PerseusColumn>,
    ParseFreqsFault,
>
    decreases marks.len() - k,
{
    if k + 1 >= marks.len() {
        Reading::Done(Seq::empty())
    } else {
        match column_title(h, marks[k as int], marks[k + 1int]) {
            Reading::Done(name) => match perseus_column(name) {
                None => Reading::Failed(ParseFreqsFault::UnexpectedCsvHeader(name)),
                Some(c) => match perseus_header(h, marks, k + 1) {
                    Reading::Done(rest) => Reading::Done(seq![c] + rest),
                    Reading::Failed(e) => Reading::Failed(e),
                    Reading::Stuck => Reading::Stuck,
                },
            },
            Reading::Failed(e) => Reading::Failed(e),
            Reading::Stuck => Reading::Stuck,
        }
    }
}

/// The entry `f` with the (trimmed, non-blank) field `field` of column `c` taken in at the
/// moment `clock`: `None` where a filter leaves the entry out.
pub open spec fn perseus_cell(f: FreqView, c: PerseusColumn, field: Seq<char>, clock: Clock) -> Reading<
    Option<FreqView>,
    ParseFreqsFault,
> {
    match c {
        PerseusColumn::Time => match parse_time(field) {
            Err(e) => Reading::Failed(e),
            Ok(t) => if time_covers(t, clock.time_of_day as nat) {
                Reading::Done(Some(f))
            } else {
                Reading::Done(None)
            },
        },
        PerseusColumn::Untitled => Reading::Done(Some(f)),
        PerseusColumn::Days => match parse_days(trim(field)) {
            Err(k) => Reading::Failed(ParseFreqsFault::ParseDay(k, trim(field))),
            Ok(ds) => if exists|i: int| 0 <= i < ds.len() && days_cover(#[trigger] ds[i], clock.weekday as nat) {
                Reading::Done(Some(f))
            } else {
                Reading::Done(None)
            },
        },
        PerseusColumn::Kilohertz => match parse_unsigned(field, 0xffff_ffff_ffff_ffff) {
            Err(k) => Reading::Failed(ParseFreqsFault::ParseHertz(k, field)),
            Ok(n) => if n * 1000 > 0xffff_ffff_ffff_ffff {
                Reading::Stuck
            } else if f.freq_hertz is Some {
                Reading::Failed(ParseFreqsFault::AlreadyDefined)
            } else {
                Reading::Done(Some(FreqView { freq_hertz: Some((n * 1000) as u64), ..f }))
            },
        },
        PerseusColumn::Uti => if f.notes.uti is Some {
            Reading::Failed(ParseFreqsFault::AlreadyDefined)
        } else {
            Reading::Done(Some(FreqView { notes: NotesView { uti: Some(field), ..f.notes }, ..f }))
        },
        PerseusColumn::Station => if f.notes.station is Some {
            Reading::Failed(ParseFreqsFault::AlreadyDefined)
        } else {
            Reading::Done(
                Some(FreqView { notes: NotesView { station: Some(field), ..f.notes }, ..f }),
            )
        },
        PerseusColumn::Language => if f.notes.language is Some {
            Reading::Failed(ParseFreqsFault::AlreadyDefined)
        } else {
            Reading::Done(
                Some(FreqView { notes: NotesView { language: Some(field), ..f.notes }, ..f }),
            )
        },
        PerseusColumn::Location => if f.notes.location is Some {
            Reading::Failed(ParseFreqsFault::AlreadyDefined)
        } else {
            Reading::Done(
                Some(FreqView { notes: NotesView { location: Some(field), ..f.notes }, ..f }),
            )
        },
    }
}

/// The entry `f` with the fields of `line` from the `k`-th column on taken in: each column's
/// field is the line between its byte marks (cut to the line's length in bytes), trimmed;
/// empty fields are passed over, and a cut that falls inside a character gets stuck.
pub open spec fn perseus_row(
    line: Seq<char>,
    marks: Seq<int>,
    cols: Seq<PerseusColumn>,
    k: nat,
    f: FreqView,
    clock: Clock,
) -> Reading<Option<FreqView>, ParseFreqsFault>
    decreases cols.len() - k,
{
    if k >= cols.len() || k + 1 >= marks.len() {
        Reading::Done(Some(f))
    } else {
        let lb = byte_len(line) as int;
        let s = min(marks[k as int], lb);
        let e = min(marks[k + 1int], lb);
        if s >= e {
            perseus_row(line, marks, cols, k + 1, f, clock)
        } else {
            match byte_slice(line, s, e) {
                None => Reading::Stuck,
                Some(t) => if trim(trim(t)).len() == 0 {
                    perseus_row(line, marks, cols, k + 1, f, clock)
                } else {
                    match perseus_cell(f, cols[k as int], trim(t), clock) {
                        Reading::Done(Some(g)) => perseus_row(line, marks, cols, k + 1, g, clock),
                        Reading::Done(None) => Reading::Done(None),
                        Reading::Failed(e) => Reading::Failed(e),
                        Reading::Stuck => Reading::Stuck,
                    }
                },
            }
        }
    }
}

/// The entries of the lines `rows`, blank lines and entries left out by a filter passed
/// over, or the first error.
pub open spec fn perseus_rows(
    rows: Seq<Seq<char>>,
    marks: Seq<int>,
    cols: Seq<PerseusColumn>,
    clock: Clock,
) -> Reading<Seq<FreqView>, ParseFreqsFault>
    decreases rows.len(),
{
    if rows.len() == 0 {
        Reading::Done(Seq::empty())
    } else if trim(rows[0]).len() == 0 {
        perseus_rows(rows.drop_first(), marks, cols, clock)
    } else {
        match perseus_row(rows[0], marks, cols, 0, empty_freq(), clock) {
            Reading::Done(None) => perseus_rows(rows.drop_first(), marks, cols, clock),
            Reading::Done(Some(f)) => match perseus_rows(rows.drop_first(), marks, cols, clock) {
                Reading::Done(fs) => Reading::Done(seq![f] + fs),
                Reading::Failed(e) => Reading::Failed(e),
                Reading::Stuck => Reading::Stuck,
            },
            Reading::Failed(e) => Reading::Failed(e),
            Reading::Stuck => Reading::Stuck,
        }
    }
}

/// The entries of a Perseus list as they stand at the moment `clock`, or why it does not
/// read.
pub open spec fn read_perseus(text: Seq<char>, clock: Clock) -> Reading<
    Seq<FreqView>,
    ParseFreqsFault,
> {
    let ls = lines(text);
    if ls.len() == 0 {
        Reading::Failed(ParseFreqsFault::ExpectedCsvHeader)
    } else {
        let (h, marks, p) = perseus_layout(ls, 1, ls[0], Seq::empty());
        match perseus_header(h, marks, 0) {
            Reading::Done(cols) => perseus_rows(ls.skip(p as int), marks, cols, clock),
            Reading::Failed(e) => Reading::Failed(e),
            Reading::Stuck => Reading::Stuck,
        }
    }
}


// ---------------------------------------------------------------------------
// Reading
// ---------------------------------------------------------------------------

/// The positions `v` as integers.
pub open spec fn ints(v: Seq<u128>) -> Seq<int> {
    v.map_values(|x: u128| x as int)
}

proof fn lemma_ruler_len(t: Seq<char>, k: int)
    requires
        0 <= k <= t.len(),
        forall|i: int| 0 <= i < k ==> #[trigger] t[i] == '+' || t[i] == '-',
        k == t.len() || (t[k] != '+' && t[k] != '-'),
    ensures
        ruler_len(t) == k,
    decreases k,
{
    if k > 0 {
        let u = t.drop_first();
        assert forall|i: int| 0 <= i < k - 1 implies #[trigger] u[i] == '+' || u[i] == '-' by {
            assert(u[i] == t[i + 1]);
        }
        if k < t.len() {
            assert(u[k - 1] == t[k]);
        }
        lemma_ruler_len(u, k - 1);
    }
}

/// Finds the header line and the column marks; see [`perseus_layout`].
fn find_layout(v: &Vec<char>, ls: &Vec<(usize, usize)>) -> (r: ((usize, usize), Vec<u128>, usize))
    requires
        ls.len() >= 1,
        forall|i: int|
            0 <= i < ls.len() ==> (#[trigger] ls@[i]).0 <= ls@[i].1 <= v.len(),
    ensures
        ({
            let ls_text = ls@.map_values(|q: (usize, usize)| v@.subrange(q.0 as int, q.1 as int));
            let (h, m, p) = perseus_layout(ls_text, 1, ls_text[0], Seq::empty());
            &&& v@.subrange(r.0.0 as int, r.0.1 as int) == h
            &&& r.0.0 <= r.0.1 <= v.len()
            &&& ints(r.1@) == m
            &&& r.2 == p
            &&& 1 <= p <= ls.len()
        }),
{
    let ghost lt = ls@.map_values(|q: (usize, usize)| v@.subrange(q.0 as int, q.1 as int));
    let mut h = ls[0];
    let mut marks: Vec<u128> = Vec::new();
    let mut p: usize = 1;
    let mut done = false;
    assert(ints(marks@) =~= Seq::<int>::empty());
    while p < ls.len() && !done
        invariant
            1 <= p <= ls.len(),
            forall|i: int|
                0 <= i < ls.len() ==> (#[trigger] ls@[i]).0 <= ls@[i].1 <= v.len(),
            lt == ls@.map_values(|q: (usize, usize)| v@.subrange(q.0 as int, q.1 as int)),
            h.0 <= h.1 <= v.len(),
            perseus_layout(lt, 1, lt[0], Seq::empty()) == (if done {
                (v@.subrange(h.0 as int, h.1 as int), ints(marks@), p as nat)
            } else {
                perseus_layout(lt, p as nat, v@.subrange(h.0 as int, h.1 as int), ints(marks@))
            }),
        decreases ls.len() - p,
    {
        let (a, b) = ls[p];
        let (ta, tb) = trim_range(v, a, b);
        let ghost t = v@.subrange(ta as int, tb as int);
        let ghost before = ints(marks@);
        assert(lt[p as int] == v@.subrange(a as int, b as int));
        let mut j = ta;
        assert(plus_positions(t, 0) =~= Seq::<int>::empty());
        assert(before + Seq::<int>::empty() =~= before);
        while j < tb && (v[j] == '+' || v[j] == '-')
            invariant
                ta <= j <= tb <= v.len(),
                t == v@.subrange(ta as int, tb as int),
                forall|i: int| ta <= i < j ==> #[trigger] v@[i] == '+' || v@[i] == '-',
                ints(marks@) == before + plus_positions(t, (j - ta) as nat),
            decreases tb - j,
        {
            let ghost old_marks = ints(marks@);
            assert(t[j - ta] == v@[j as int]);
            if v[j] == '+' {
                marks.push((j - ta) as u128);
                assert(ints(marks@) =~= old_marks.push((j - ta) as int));
            }
            proof {
                let n = (j - ta + 1) as nat;
                assert(plus_positions(t, n) == plus_positions(t, (n - 1) as nat) + (if t[n - 1]
                    == '+' {
                    seq![n - 1]
                } else {
                    Seq::<int>::empty()
                }));
                if v@[j as int] == '+' {
                    assert(before + plus_positions(t, n) =~= old_marks.push((j - ta) as int));
                } else {
                    assert(before + plus_positions(t, n) =~= old_marks);
                }
            }
            j += 1;
        }
        proof {
            assert forall|i: int| 0 <= i < j - ta implies #[trigger] t[i] == '+' || t[i] == '-' by {
                assert(t[i] == v@[ta + i]);
            }
            if j < tb {
                assert(t[j - ta] == v@[j as int]);
            }
            lemma_ruler_len(t, (j - ta) as int);
        }
        if j == tb {
            let ghost m = ints(marks@);
            let n = byte_count(v, a, b);
            marks.push(n);
            assert(ints(marks@) =~= m.push(n as int));
            done = true;
        } else {
            h = (a, b);
        }
        p += 1;
    }
    (h, marks, p)
}


/// Where the title of the column from byte mark `i0` to byte mark `i1` lies in the header
/// `v[h0..h1]`, or `None` where [`column_title`] is stuck.
fn title_range(v: &Vec<char>, h0: usize, h1: usize, i0: u128, i1: u128) -> (r: Option<
    (usize, usize),
>)
    requires
        h0 <= h1 <= v.len(),
    ensures
        ({
            let h = v@.subrange(h0 as int, h1 as int);
            match r {
                None => column_title(h, i0 as int, i1 as int) is Stuck,
                Some((a, b)) => a <= b <= v.len() && column_title(h, i0 as int, i1 as int)
                    == Reading::<Seq<char>, ParseFreqsFault>::Done(v@.subrange(a as int, b as int)),
            }
        }),
{
    let ghost h = v@.subrange(h0 as int, h1 as int);
    let hb = byte_count(v, h0, h1);
    let s0 = if i0 < hb {
        i0
    } else {
        hb
    };
    if s0 >= hb {
        return None;
    }
    let e = if i1 < hb {
        i1
    } else {
        hb
    };
    let mut st = s0;
    loop
        invariant
            h0 <= h1 <= v.len(),
            h == v@.subrange(h0 as int, h1 as int),
            hb == byte_len(h),
            s0 < hb,
            s0 as int == min(i0 as int, hb as int),
            e as int == min(i1 as int, hb as int),
            st <= s0,
            word_start(h, s0 as int) == word_start(h, st as int),
        ensures
            st <= s0,
            word_start(h, s0 as int) == Some(st as int),
        decreases st,
    {
        match ascii_at_in(v, h0, h1, st) {
            None => {
                return None;
            },
            Some(c) => {
                if c == ' ' || st < 1 {
                    break;
                }
                match ascii_at_in(v, h0, h1, st - 1) {
                    None => {
                        return None;
                    },
                    Some(d) => {
                        if d == ' ' {
                            break;
                        }
                    },
                }
                st = st - 1;
            },
        }
    }
    match byte_slice_in(v, h0, h1, st, e) {
        None => None,
        Some((x, y)) => {
            let (ta, tb) = trim_range(v, x, y);
            let (wa, wb) = first_word_range(v, ta, tb);
            Some((wa, wb))
        },
    }
}

/// The column that `v[a..b]` names, if any.
fn column_named(v: &Vec<char>, a: usize, b: usize) -> (r: Option<PerseusColumn>)
    requires
        a <= b <= v.len(),
    ensures
        r == perseus_column(v@.subrange(a as int, b as int)),
{
    let time = vec!['T', 'i', 'm', 'e', '(', 'U', 'T', 'C', ')'];
    let days = vec!['D', 'a', 'y', 's'];
    let khz = vec!['k', 'H', 'z'];
    let itu = vec!['I', 'T', 'U'];
    let station = vec!['S', 't', 'a', 't', 'i', 'o', 'n'];
    let lang = vec!['L', 'a', 'n', 'g', '.'];
    let location = vec!['L', 'o', 'c', 'a', 't', 'i', 'o', 'n'];
    assert(time@ =~= seq!['T', 'i', 'm', 'e', '(', 'U', 'T', 'C', ')']);
    assert(days@ =~= seq!['D', 'a', 'y', 's']);
    assert(khz@ =~= seq!['k', 'H', 'z']);
    assert(itu@ =~= seq!['I', 'T', 'U']);
    assert(station@ =~= seq!['S', 't', 'a', 't', 'i', 'o', 'n']);
    assert(lang@ =~= seq!['L', 'a', 'n', 'g', '.']);
    assert(location@ =~= seq!['L', 'o', 'c', 'a', 't', 'i', 'o', 'n']);
    if range_equals(v, a, b, &time) {
        Some(PerseusColumn::Time)
    } else if a == b {
        Some(PerseusColumn::Untitled)
    } else if range_equals(v, a, b, &days) {
        Some(PerseusColumn::Days)
    } else if range_equals(v, a, b, &khz) {
        Some(PerseusColumn::Kilohertz)
    } else if range_equals(v, a, b, &itu) {
        Some(PerseusColumn::Uti)
    } else if range_equals(v, a, b, &station) {
        Some(PerseusColumn::Station)
    } else if range_equals(v, a, b, &lang) {
        Some(PerseusColumn::Language)
    } else if range_equals(v, a, b, &location) {
        Some(PerseusColumn::Location)
    } else {
        None
    }
}

/// `Done(front + rest)` where `r` is `Done(rest)`, else `r`.
pub open spec fn after<T>(front: Seq<T>, r: Reading<Seq<T>, ParseFreqsFault>) -> Reading<
    Seq<T>,
    ParseFreqsFault,
> {
    match r {
        Reading::Done(rest) => Reading::Done(front + rest),
        Reading::Failed(e) => Reading::Failed(e),
        Reading::Stuck => Reading::Stuck,
    }
}

/// Reads the columns of the header `v[h0..h1]` under the marks `marks`.
fn read_columns(v: &Vec<char>, h0: usize, h1: usize, marks: &Vec<u128>) -> (r: Reading<
    Vec<PerseusColumn>,
    ParseFreqsError,
>)
    requires
        h0 <= h1 <= v.len(),
    ensures
        ({
            let spec = perseus_header(v@.subrange(h0 as int, h1 as int), ints(marks@), 0);
            match r {
                Reading::Done(cols) => spec == Reading::<Seq<PerseusColumn>, ParseFreqsFault>::Done(
                    cols@,
                ),
                Reading::Failed(e) => spec == Reading::<Seq<PerseusColumn>, ParseFreqsFault>::Failed(
                    e@,
                ),
                Reading::Stuck => spec is Stuck,
            }
        }),
{
    let ghost h = v@.subrange(h0 as int, h1 as int);
    let ghost m = ints(marks@);
    let mut cols: Vec<PerseusColumn> = Vec::new();
    let mut k: usize = 0;
    assert(after(Seq::<PerseusColumn>::empty(), perseus_header(h, m, 0)) == perseus_header(h, m, 0)) by {
        match perseus_header(h, m, 0) {
            Reading::Done(rest) => {
                assert(Seq::<PerseusColumn>::empty() + rest =~= rest);
            },
            _ => {},
        }
    }
    while marks.len() > 0 && k < marks.len() - 1
        invariant
            h0 <= h1 <= v.len(),
            h == v@.subrange(h0 as int, h1 as int),
            m == ints(marks@),
            m.len() == marks.len(),
            k < marks.len() || marks.len() == 0,
            perseus_header(h, m, 0) == after(cols@, perseus_header(h, m, k as nat)),
        decreases marks.len() - k,
    {
        let i0 = marks[k];
        let i1 = marks[k + 1];
        assert(m[k as int] == i0 as int && m[k + 1] == i1 as int);
        match title_range(v, h0, h1, i0, i1) {
            None => {
                return Reading::Stuck;
            },
            Some((a, b)) => match column_named(v, a, b) {
                None => {
                    return Reading::Failed(
                        ParseFreqsError::UnexpectedCsvHeader(string_from_range(v, a, b)),
                    );
                },
                Some(c) => {
                    let ghost before = cols@;
                    cols.push(c);
                    proof {
                        match perseus_header(h, m, (k + 1) as nat) {
                            Reading::Done(rest) => {
                                assert(before + (seq![c] + rest) =~= cols@ + rest);
                            },
                            _ => {},
                        }
                    }
                },
            },
        }
        k += 1;
    }
    proof {
        match perseus_header(h, m, k as nat) {
            Reading::Done(rest) => {
                assert(rest =~= Seq::<PerseusColumn>::empty());
                assert(cols@ + rest =~= cols@);
            },
            _ => {},
        }
    }
    Reading::Done(cols)
}


/// Whether some day range of `ds` takes in the day `today`.
fn any_day_covers(ds: &Vec<Days>, today: u8) -> (b: bool)
    requires
        forall|j: int|
            0 <= j < ds@.len() ==> (#[trigger] ds@[j]).from <= 9 && (ds@[j].to matches Some(t)
                ==> t <= 9),
    ensures
        b == exists|j: int| 0 <= j < ds@.len() && days_cover(#[trigger] ds@[j], today as nat),
{
    let mut i: usize = 0;
    while i < ds.len()
        invariant
            i <= ds.len(),
            forall|j: int|
                0 <= j < ds@.len() ==> (#[trigger] ds@[j]).from <= 9 && (ds@[j].to matches Some(t)
                    ==> t <= 9),
            forall|j: int| 0 <= j < i ==> !days_cover(#[trigger] ds@[j], today as nat),
        decreases ds.len() - i,
    {
        assert(ds@[i as int].from <= 9);
        if ds[i].is_on(today) {
            assert(days_cover(ds@[i as int], today as nat));
            return true;
        }
        i += 1;
    }
    false
}

/// Takes the field `v[a..b]` of column `c` into `f` at the moment `clock`: `Done(false)`
/// where a filter leaves the entry out.
fn take_cell(f: &mut Freq, c: PerseusColumn, v: &Vec<char>, a: usize, b: usize, clock: Clock) -> (r:
    Reading<bool, ParseFreqsError>)
    requires
        a <= b <= v.len(),
    ensures
        ({
            let spec = perseus_cell(old(f)@, c, v@.subrange(a as int, b as int), clock);
            match r {
                Reading::Done(true) => spec == Reading::<Option<FreqView>, ParseFreqsFault>::Done(
                    Some(final(f)@),
                ),
                Reading::Done(false) => spec == Reading::<Option<FreqView>, ParseFreqsFault>::Done(
                    None,
                ),
                Reading::Failed(e) => spec == Reading::<Option<FreqView>, ParseFreqsFault>::Failed(
                    e@,
                ),
                Reading::Stuck => spec is Stuck,
            }
        }),
{
    match c {
        PerseusColumn::Time => match TimeUtc::from_chars(v, a, b) {
            Err(e) => Reading::Failed(e),
            Ok(t) => {
                let keep = t.is_at(clock.time_of_day);
                assert(perseus_cell(f@, c, v@.subrange(a as int, b as int), clock) == (if keep {
                    Reading::<Option<FreqView>, ParseFreqsFault>::Done(Some(f@))
                } else {
                    Reading::<Option<FreqView>, ParseFreqsFault>::Done(None)
                }));
                Reading::Done(keep)
            },
        },
        PerseusColumn::Untitled => Reading::Done(true),
        PerseusColumn::Days => match Days::from_chars(v, a, b) {
            Err(e) => Reading::Failed(e),
            Ok(ds) => {
                let keep = any_day_covers(&ds, clock.weekday);
                assert(perseus_cell(f@, c, v@.subrange(a as int, b as int), clock) == (if keep {
                    Reading::<Option<FreqView>, ParseFreqsFault>::Done(Some(f@))
                } else {
                    Reading::<Option<FreqView>, ParseFreqsFault>::Done(None)
                }));
                Reading::Done(keep)
            },
        },
        PerseusColumn::Kilohertz => match parse_unsigned_range(v, a, b, 0xffff_ffff_ffff_ffff) {
            Err(k) => Reading::Failed(ParseFreqsError::ParseHertz(k, string_from_range(v, a, b))),
            Ok(n) => {
                if n > 0xffff_ffff_ffff_ffff / 1000 {
                    assert(n * 1000 > 0xffff_ffff_ffff_ffff) by (nonlinear_arith)
                        requires
                            n > 0xffff_ffff_ffff_ffffu64 / 1000,
                    ;
                    return Reading::Stuck;
                }
                assert(n * 1000 <= 0xffff_ffff_ffff_ffff) by (nonlinear_arith)
                    requires
                        n <= 0xffff_ffff_ffff_ffffu64 / 1000,
                ;
                match Freq::set_value(&mut f.freq_hertz, n * 1000) {
                    Ok(()) => Reading::Done(true),
                    Err(e) => Reading::Failed(e),
                }
            },
        },
        PerseusColumn::Uti => match Freq::set_value(&mut f.notes.uti, string_from_range(v, a, b)) {
            Ok(()) => Reading::Done(true),
            Err(e) => Reading::Failed(e),
        },
        PerseusColumn::Station => match Freq::set_value(
            &mut f.notes.station,
            string_from_range(v, a, b),
        ) {
            Ok(()) => Reading::Done(true),
            Err(e) => Reading::Failed(e),
        },
        PerseusColumn::Language => match Freq::set_value(
            &mut f.notes.language,
            string_from_range(v, a, b),
        ) {
            Ok(()) => Reading::Done(true),
            Err(e) => Reading::Failed(e),
        },
        PerseusColumn::Location => match Freq::set_value(
            &mut f.notes.location,
            string_from_range(v, a, b),
        ) {
            Ok(()) => Reading::Done(true),
            Err(e) => Reading::Failed(e),
        },
    }
}

/// Reads the entry on the line `v[a..b]`: `Done(None)` where a filter leaves it out.
fn read_row(
    v: &Vec<char>,
    a: usize,
    b: usize,
    marks: &Vec<u128>,
    cols: &Vec<PerseusColumn>,
    clock: Clock,
) -> (r: Reading<Option<Freq>, ParseFreqsError>)
    requires
        a <= b <= v.len(),
    ensures
        ({
            let spec = perseus_row(
                v@.subrange(a as int, b as int),
                ints(marks@),
                cols@,
                0,
                empty_freq(),
                clock,
            );
            match r {
                Reading::Done(Some(f)) => spec == Reading::<Option<FreqView>, ParseFreqsFault>::Done(
                    Some(f@),
                ),
                Reading::Done(None) => spec == Reading::<Option<FreqView>, ParseFreqsFault>::Done(
                    None,
                ),
                Reading::Failed(e) => spec == Reading::<Option<FreqView>, ParseFreqsFault>::Failed(
                    e@,
                ),
                Reading::Stuck => spec is Stuck,
            }
        }),
{
    let ghost line = v@.subrange(a as int, b as int);
    let ghost m = ints(marks@);
    let lb = byte_count(v, a, b);
    let mut f = Freq::new();
    let mut k: usize = 0;
    while k < cols.len() && marks.len() > 0 && k < marks.len() - 1
        invariant
            a <= b <= v.len(),
            lb == byte_len(line),
            line == v@.subrange(a as int, b as int),
            m == ints(marks@),
            m.len() == marks.len(),
            perseus_row(line, m, cols@, 0, empty_freq(), clock) == perseus_row(
                line,
                m,
                cols@,
                k as nat,
                f@,
                clock,
            ),
        decreases cols.len() - k,
    {
        let i0 = marks[k];
        let i1 = marks[k + 1];
        assert(m[k as int] == i0 as int && m[k + 1] == i1 as int);
        let s = if i0 < lb {
            i0
        } else {
            lb
        };
        let e = if i1 < lb {
            i1
        } else {
            lb
        };
        if s < e {
            match byte_slice_in(v, a, b, s, e) {
                None => {
                    return Reading::Stuck;
                },
                Some((x, y)) => {
                    let (ta, tb) = trim_range(v, x, y);
                    proof {
                        lemma_trim_idempotent(v@.subrange(x as int, y as int));
                    }
                    if ta < tb {
                        match take_cell(&mut f, cols[k], v, ta, tb, clock) {
                            Reading::Done(true) => {},
                            Reading::Done(false) => {
                                return Reading::Done(None);
                            },
                            Reading::Failed(err) => {
                                return Reading::Failed(err);
                            },
                            Reading::Stuck => {
                                return Reading::Stuck;
                            },
                        }
                    }
                },
            }
        }
        k += 1;
    }
    Reading::Done(Some(f))
}

/// Reads a Perseus list at the moment `clock`; see [`read_perseus`].
fn read_perseus_chars(v: &Vec<char>, clock: Clock) -> (r: Reading<Vec<Freq>, ParseFreqsError>)
    ensures
        ({
            let spec = read_perseus(v@, clock);
            match r {
                Reading::Done(fs) => spec == Reading::<Seq<FreqView>, ParseFreqsFault>::Done(
                    views(fs@),
                ),
                Reading::Failed(e) => spec == Reading::<Seq<FreqView>, ParseFreqsFault>::Failed(
                    e@,
                ),
                Reading::Stuck => spec is Stuck,
            }
        }),
{
    let ls = line_ranges(v);
    let ghost all = lines(v@);
    if ls.len() == 0 {
        return Reading::Failed(ParseFreqsError::ExpectedCsvHeader);
    }
    proof {
        assert(ls@.map_values(|q: (usize, usize)| v@.subrange(q.0 as int, q.1 as int)) =~= all);
    }
    let (h, marks, p) = find_layout(v, &ls);
    let cols = match read_columns(v, h.0, h.1, &marks) {
        Reading::Done(c) => c,
        Reading::Failed(e) => {
            return Reading::Failed(e);
        },
        Reading::Stuck => {
            return Reading::Stuck;
        },
    };
    let ghost m = ints(marks@);
    let ghost rows = all.skip(p as int);
    let mut out: Vec<Freq> = Vec::new();
    let mut q = p;
    assert(views(out@) =~= Seq::<FreqView>::empty());
    assert(rows.skip(0) =~= rows);
    assert(after(Seq::<FreqView>::empty(), perseus_rows(rows, m, cols@, clock)) == perseus_rows(rows, m, cols@, clock)) by {
        match perseus_rows(rows, m, cols@, clock) {
            Reading::Done(rest) => {
                assert(Seq::<FreqView>::empty() + rest =~= rest);
            },
            _ => {},
        }
    }
    while q < ls.len()
        invariant
            p <= q <= ls.len(),
            ls.len() == all.len(),
            all == lines(v@),
            rows == all.skip(p as int),
            m == ints(marks@),
            forall|i: int|
                0 <= i < ls.len() ==> (#[trigger] ls@[i]).0 <= ls@[i].1 <= v.len() && v@.subrange(
                    ls@[i].0 as int,
                    ls@[i].1 as int,
                ) == all[i],
            read_perseus(v@, clock) == perseus_rows(rows, m, cols@, clock),
            perseus_rows(rows, m, cols@, clock) == after(
                views(out@),
                perseus_rows(rows.skip(q - p), m, cols@, clock),
            ),
        decreases ls.len() - q,
    {
        let (a, b) = ls[q];
        let ghost t = rows.skip(q - p);
        proof {
            assert(t[0] == all[q as int]);
            assert(t.drop_first() =~= rows.skip(q - p + 1));
        }
        let (ta, tb) = trim_range(v, a, b);
        if ta < tb {
            match read_row(v, a, b, &marks, &cols, clock) {
                Reading::Done(Some(f)) => {
                    let ghost before = views(out@);
                    out.push(f);
                    proof {
                        assert(views(out@) =~= before.push(f@));
                        match perseus_rows(rows.skip(q - p + 1), m, cols@, clock) {
                            Reading::Done(rest) => {
                                assert(before + (seq![f@] + rest) =~= views(out@) + rest);
                            },
                            _ => {},
                        }
                    }
                },
                Reading::Done(None) => {},
                Reading::Failed(e) => {
                    return Reading::Failed(e);
                },
                Reading::Stuck => {
                    return Reading::Stuck;
                },
            }
        }
        q += 1;
    }
    proof {
        assert(rows.skip(q - p).len() == 0);
        assert(views(out@) + Seq::<FreqView>::empty() =~= views(out@));
    }
    Reading::Done(out)
}


/// Whether a Perseus list can be read at the moment `clock`: the reading does not get stuck
/// (see [`Reading`]).
pub open spec fn perseus_accepts(text: Seq<char>, clock: Clock) -> bool {
    !(read_perseus(text, clock) is Stuck)
}

/// Whether [`read_perseus_at`] can read `text` at the moment `clock`.
pub fn perseus_readable(text: &str, clock: Clock) -> (b: bool)
    ensures
        b == perseus_accepts(text@, clock),
{
    let v = chars_of(text);
    match read_perseus_chars(&v, clock) {
        Reading::Stuck => false,
        _ => true,
    }
}

/// Reads a Perseus list as it stands at the moment `clock`: the entries whose time and day
/// filters take in that moment; see [`read_perseus`].
pub fn read_perseus_at(text: &str, clock: Clock) -> (r: Result<Vec<Freq>, ParseFreqsError>)
    requires
        perseus_accepts(text@, clock),
    ensures
        match r {
            Ok(fs) => read_perseus(text@, clock) == Reading::<
                Seq<FreqView>,
                ParseFreqsFault,
            >::Done(views(fs@)),
            Err(e) => read_perseus(text@, clock) == Reading::<
                Seq<FreqView>,
                ParseFreqsFault,
            >::Failed(e@),
        },
{
    let v = chars_of(text);
    match read_perseus_chars(&v, clock) {
        Reading::Done(fs) => Ok(fs),
        Reading::Failed(e) => Err(e),
        Reading::Stuck => Ok(Vec::new()),
    }
}


/// A row passes the Days filter exactly when some range of its list of days takes in the
/// weekday of the clock, whichever place in the list that range has; a list that does not
/// read fails the row.
pub proof fn lemma_days_filter(f: FreqView, field: Seq<char>, clock: Clock)
    ensures
        parse_days(trim(field)) matches Ok(ds) ==> ((exists|j: int|
            0 <= j < ds.len() && days_cover(#[trigger] ds[j], clock.weekday as nat))
            ==> perseus_cell(f, PerseusColumn::Days, field, clock) == Reading::<
            Option<FreqView>,
            ParseFreqsFault,
        >::Done(Some(f))),
        parse_days(trim(field)) matches Ok(ds) ==> ((forall|j: int|
            0 <= j < ds.len() ==> !days_cover(#[trigger] ds[j], clock.weekday as nat))
            ==> perseus_cell(f, PerseusColumn::Days, field, clock) == Reading::<
            Option<FreqView>,
            ParseFreqsFault,
        >::Done(None)),
        parse_days(trim(field)) matches Err(k) ==> perseus_cell(
            f,
            PerseusColumn::Days,
            field,
            clock,
        ) == Reading::<Option<FreqView>, ParseFreqsFault>::Failed(
            ParseFreqsFault::ParseDay(k, trim(field)),
        ),
{
}

/// The day that each digit of `t` names, as read from a list of single days.
pub open spec fn single_days(t: Seq<char>) -> Seq<Days> {
    Seq::new(t.len(), |i: int| Days { from: digit_value(t[i]) as u8, to: None })
}

proof fn lemma_parse_single_days(t: Seq<char>)
    requires
        forall|i: int| 0 <= i < t.len() ==> is_digit(#[trigger] t[i]),
    ensures
        parse_days(t) == Ok::<Seq<Days>, IntErrorKind>(single_days(t)),
    decreases t.len(),
{
    if t.len() > 0 {
        let u = t.skip(1);
        assert forall|i: int| 0 <= i < u.len() implies is_digit(#[trigger] u[i]) by {
            assert(u[i] == t[i + 1]);
        }
        lemma_parse_single_days(u);
        let c = t.take(1);
        assert(is_digit(t[0]));
        assert(c[0] == t[0]);
        assert(c.drop_first().len() == 0);
        assert(fold_digits(digit_value(c[0]), c.drop_first(), 255) == Ok::<nat, IntErrorKind>(
            digit_value(c[0]),
        ));
        assert(digit_value(c[0]) <= 9);
        assert(fold_digits(0, c, 255) == Ok::<nat, IntErrorKind>(digit_value(c[0])));
        assert(parse_unsigned(c, 255) == Ok::<nat, IntErrorKind>(digit_value(t[0])));
        if t.len() >= 2 {
            assert(is_digit(t[1]));
        }
        let d0 = Days { from: digit_value(t[0]) as u8, to: None };
        assert forall|i: int| 0 <= i < t.len() implies (seq![d0] + single_days(u))[i]
            == single_days(t)[i] by {
            if i > 0 {
                assert(u[i - 1] == t[i]);
            }
        }
        assert(seq![d0] + single_days(u) =~= single_days(t));
        assert(parse_days(t) == Ok::<Seq<Days>, IntErrorKind>(seq![d0] + single_days(u)));
    } else {
        assert(single_days(t) =~= Seq::<Days>::empty());
    }
}

/// A row whose Days field lists single days (digits only, as `67` for Saturday and Sunday)
/// passes the filter exactly when one of those digits names the weekday of the clock.
pub proof fn lemma_single_days_filter(f: FreqView, field: Seq<char>, clock: Clock)
    requires
        forall|i: int| 0 <= i < trim(field).len() ==> is_digit(#[trigger] trim(field)[i]),
    ensures
        perseus_cell(f, PerseusColumn::Days, field, clock) == (if exists|i: int|
            0 <= i < trim(field).len() && day_number(digit_value(#[trigger] trim(field)[i]) as u8)
                == clock.weekday {
            Reading::<Option<FreqView>, ParseFreqsFault>::Done(Some(f))
        } else {
            Reading::<Option<FreqView>, ParseFreqsFault>::Done(None)
        }),
{
    let t = trim(field);
    lemma_parse_single_days(t);
    lemma_days_filter(f, field, clock);
    let ds = single_days(t);
    if exists|i: int| 0 <= i < t.len() && day_number(digit_value(#[trigger] t[i]) as u8)
        == clock.weekday {
        let i = choose|i: int|
            0 <= i < t.len() && day_number(digit_value(#[trigger] t[i]) as u8) == clock.weekday;
        assert(ds[i].from == digit_value(t[i]) as u8 && ds[i].to is None);
        assert(days_cover(ds[i], clock.weekday as nat));
        assert(exists|j: int| 0 <= j < ds.len() && days_cover(#[trigger] ds[j], clock.weekday as nat));
    } else {
        assert forall|j: int| 0 <= j < ds.len() implies !days_cover(
            #[trigger] ds[j],
            clock.weekday as nat,
        ) by {
            assert(ds[j].from == digit_value(t[j]) as u8);
        }
    }
}

} // verus!
