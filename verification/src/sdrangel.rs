//! SDRangel frequency tables: a header line of column titles, then one comma-separated row
//! per entry.

use vstd::prelude::*;

use crate::error::{ParseFreqsError, ParseFreqsFault};
use crate::freq::{bandwidth_text, empty_freq, notes_text, Freq, FreqView, NotesView, push_str, DEFAULT_BANDWIDTH_HERTZ};
use crate::freqs::views;
use crate::level::{
    formatted_level, lemma_formatted_level, lemma_parsed_level, parsed_level, reads_levels,
    writes_levels, DEFAULT_SQUELCH_BITS, DEFAULT_THRESHOLD_BITS,
};
use crate::text::{
    bool_text, clean, decimal, push_bool, push_clean, push_decimal, string_from_chars, chars_of, lemma_trim_idempotent, line_ranges, lines, parse_bool,
    parse_bool_range, parse_unsigned, parse_unsigned_range, range_equals, split, split_ranges,
    string_from_range, trim, trim_range, lacks, lemma_split_suffix, lemma_split_none, lemma_clean_plain,
    lemma_clean_lacks, lemma_trim_solid, lemma_trim_nonblank, lemma_trim_lacks, lemma_decimal_plain,
    lemma_parse_decimal, is_space, lemma_trim_shape, strip_cr, lemma_split_push,
    lemma_trim_push_space, lemma_lines_final_feed,
};

verus! {

/// The columns of an SDRangel table.
#[derive(Debug, Clone, Copy, PartialEq, Eq, Structural)]
pub enum SdrColumn {
    Hertz,
    Enable,
    Notes,
    Channel,
    Bandwidth,
    Threshold,
    Squelch,
}

/// The title of a column.
pub open spec fn sdr_title(c: SdrColumn) -> Seq<char> {
    match c {
        SdrColumn::Hertz => seq!['F', 'r', 'e', 'q', ' ', '(', 'H', 'z', ')'],
        SdrColumn::Enable => seq!['E', 'n', 'a', 'b', 'l', 'e'],
        SdrColumn::Notes => seq!['N', 'o', 't', 'e', 's'],
        SdrColumn::Channel => seq!['C', 'h', 'a', 'n', 'n', 'e', 'l'],
        SdrColumn::Bandwidth => seq!['C', 'h', ' ', 'B', 'W', ' ', '(', 'H', 'z', ')'],
        SdrColumn::Threshold => seq!['T', 'H', ' ', '(', 'd', 'B', ')'],
        SdrColumn::Squelch => seq!['S', 'q', ' ', '(', 'd', 'B', ')'],
    }
}

/// The columns in the order they are written.
pub open spec fn sdr_columns() -> Seq<SdrColumn> {
    seq![
        SdrColumn::Hertz,
        SdrColumn::Enable,
        SdrColumn::Notes,
        SdrColumn::Channel,
        SdrColumn::Bandwidth,
        SdrColumn::Threshold,
        SdrColumn::Squelch,
    ]
}

/// The column whose title is `field`, if any.
pub open spec fn sdr_column(field: Seq<char>) -> Option<SdrColumn> {
    if field == sdr_title(SdrColumn::Hertz) {
        Some(SdrColumn::Hertz)
    } else if field == sdr_title(SdrColumn::Enable) {
        Some(SdrColumn::Enable)
    } else if field == sdr_title(SdrColumn::Notes) {
        Some(SdrColumn::Notes)
    } else if field == sdr_title(SdrColumn::Channel) {
        Some(SdrColumn::Channel)
    } else if field == sdr_title(SdrColumn::Bandwidth) {
        Some(SdrColumn::Bandwidth)
    } else if field == sdr_title(SdrColumn::Threshold) {
        Some(SdrColumn::Threshold)
    } else if field == sdr_title(SdrColumn::Squelch) {
        Some(SdrColumn::Squelch)
    } else {
        None
    }
}

/// The comma-separated fields of `line`, each trimmed.
pub open spec fn trimmed_fields(line: Seq<char>) -> Seq<Seq<char>> {
    split(line, ',').map_values(|f: Seq<char>| trim(f))
}

/// The columns the header fields name, or the first field that names none.
pub open spec fn sdr_header(fields: Seq<Seq<char>>) -> Result<Seq<SdrColumn>, ParseFreqsFault>
    decreases fields.len(),
{
    if fields.len() == 0 {
        Ok(seq![])
    } else {
        match sdr_column(fields[0]) {
            None => Err(ParseFreqsFault::UnexpectedCsvHeader(fields[0])),
            Some(c) => match sdr_header(fields.drop_first()) {
                Err(e) => Err(e),
                Ok(rest) => Ok(seq![c] + rest),
            },
        }
    }
}

/// The entry `f` with the field `field` of column `c` read into it, or why that fails: a
/// value that does not read, or a value that is already set.
pub open spec fn sdr_apply<P: Fn(String) -> Option<u64>>(
    f: FreqView,
    c: SdrColumn,
    field: Seq<char>,
    parse: P,
) -> Result<FreqView, ParseFreqsFault> {
    match c {
        SdrColumn::Hertz => match parse_unsigned(field, 0xffff_ffff_ffff_ffff) {
            Err(k) => Err(ParseFreqsFault::ParseHertz(k, field)),
            Ok(n) => if f.freq_hertz is Some {
                Err(ParseFreqsFault::AlreadyDefined)
            } else {
                Ok(FreqView { freq_hertz: Some(n as u64), ..f })
            },
        },
        SdrColumn::Enable => match parse_bool(field) {
            None => Err(ParseFreqsFault::ParseEnabled(field)),
            Some(b) => if f.enabled is Some {
                Err(ParseFreqsFault::AlreadyDefined)
            } else {
                Ok(FreqView { enabled: Some(b), ..f })
            },
        },
        SdrColumn::Notes => if f.notes.station is Some {
            Err(ParseFreqsFault::AlreadyDefined)
        } else {
            Ok(FreqView { notes: crate::freq::NotesView { station: Some(field), ..f.notes }, ..f })
        },
        SdrColumn::Channel => if f.channel is Some {
            Err(ParseFreqsFault::AlreadyDefined)
        } else {
            Ok(FreqView { channel: Some(field), ..f })
        },
        SdrColumn::Bandwidth => match parse_unsigned(field, 0xffff_ffff) {
            Err(k) => Err(ParseFreqsFault::ParseBandwidthHertz(k, field)),
            Ok(n) => if f.channel_bandwidth is Some {
                Err(ParseFreqsFault::AlreadyDefined)
            } else {
                Ok(FreqView { channel_bandwidth: Some(n as u32), ..f })
            },
        },
        SdrColumn::Threshold => match parsed_level(parse, field) {
            None => Err(ParseFreqsFault::ParseDecibel(field)),
            Some(d) => if f.threshold is Some {
                Err(ParseFreqsFault::AlreadyDefined)
            } else {
                Ok(FreqView { threshold: Some(d), ..f })
            },
        },
        SdrColumn::Squelch => match parsed_level(parse, field) {
            None => Err(ParseFreqsFault::ParseDecibel(field)),
            Some(d) => if f.squelch is Some {
                Err(ParseFreqsFault::AlreadyDefined)
            } else {
                Ok(FreqView { squelch: Some(d), ..f })
            },
        },
    }
}

/// The entry `f` with the fields of a row read into it under their columns, left to right,
/// as far as both reach; blank fields are passed over.
pub open spec fn sdr_row<P: Fn(String) -> Option<u64>>(
    cols: Seq<SdrColumn>,
    fields: Seq<Seq<char>>,
    f: FreqView,
    parse: P,
) -> Result<FreqView, ParseFreqsFault>
    decreases fields.len(),
{
    if cols.len() == 0 || fields.len() == 0 {
        Ok(f)
    } else {
        let step = if trim(fields[0]).len() == 0 {
            Ok(f)
        } else {
            sdr_apply(f, cols[0], fields[0], parse)
        };
        match step {
            Err(e) => Err(e),
            Ok(g) => sdr_row(cols.drop_first(), fields.drop_first(), g, parse),
        }
    }
}

/// The entries of the data lines `rows`, blank lines passed over, or the first error.
pub open spec fn sdr_rows<P: Fn(String) -> Option<u64>>(
    cols: Seq<SdrColumn>,
    rows: Seq<Seq<char>>,
    parse: P,
) -> Result<Seq<FreqView>, ParseFreqsFault>
    decreases rows.len(),
{
    if rows.len() == 0 {
        Ok(seq![])
    } else if trim(rows[0]).len() == 0 {
        sdr_rows(cols, rows.drop_first(), parse)
    } else {
        match sdr_row(cols, trimmed_fields(rows[0]), empty_freq(), parse) {
            Err(e) => Err(e),
            Ok(f) => match sdr_rows(cols, rows.drop_first(), parse) {
                Err(e) => Err(e),
                Ok(fs) => Ok(seq![f] + fs),
            },
        }
    }
}

/// The entries of an SDRangel table, or why it does not read.
pub open spec fn read_sdrangel<P: Fn(String) -> Option<u64>>(text: Seq<char>, parse: P) -> Result<
    Seq<FreqView>,
    ParseFreqsFault,
> {
    let ls = lines(text);
    if ls.len() == 0 {
        Err(ParseFreqsFault::ExpectedCsvHeader)
    } else {
        match sdr_header(trimmed_fields(ls[0])) {
            Err(e) => Err(e),
            Ok(cols) => sdr_rows(cols, ls.drop_first(), parse),
        }
    }
}

/// The characters of the title of `c`.
pub fn sdr_title_chars(c: SdrColumn) -> (v: Vec<char>)
    ensures
        v@ == sdr_title(c),
{
    let v = match c {
        SdrColumn::Hertz => vec!['F', 'r', 'e', 'q', ' ', '(', 'H', 'z', ')'],
        SdrColumn::Enable => vec!['E', 'n', 'a', 'b', 'l', 'e'],
        SdrColumn::Notes => vec!['N', 'o', 't', 'e', 's'],
        SdrColumn::Channel => vec!['C', 'h', 'a', 'n', 'n', 'e', 'l'],
        SdrColumn::Bandwidth => vec!['C', 'h', ' ', 'B', 'W', ' ', '(', 'H', 'z', ')'],
        SdrColumn::Threshold => vec!['T', 'H', ' ', '(', 'd', 'B', ')'],
        SdrColumn::Squelch => vec!['S', 'q', ' ', '(', 'd', 'B', ')'],
    };
    assert(v@ =~= sdr_title(c));
    v
}

/// The column whose title is `v[lo..hi]`, if any.
fn column_of(v: &Vec<char>, lo: usize, hi: usize) -> (r: Option<SdrColumn>)
    requires
        lo <= hi <= v.len(),
    ensures
        r == sdr_column(v@.subrange(lo as int, hi as int)),
{
    if range_equals(v, lo, hi, &sdr_title_chars(SdrColumn::Hertz)) {
        Some(SdrColumn::Hertz)
    } else if range_equals(v, lo, hi, &sdr_title_chars(SdrColumn::Enable)) {
        Some(SdrColumn::Enable)
    } else if range_equals(v, lo, hi, &sdr_title_chars(SdrColumn::Notes)) {
        Some(SdrColumn::Notes)
    } else if range_equals(v, lo, hi, &sdr_title_chars(SdrColumn::Channel)) {
        Some(SdrColumn::Channel)
    } else if range_equals(v, lo, hi, &sdr_title_chars(SdrColumn::Bandwidth)) {
        Some(SdrColumn::Bandwidth)
    } else if range_equals(v, lo, hi, &sdr_title_chars(SdrColumn::Threshold)) {
        Some(SdrColumn::Threshold)
    } else if range_equals(v, lo, hi, &sdr_title_chars(SdrColumn::Squelch)) {
        Some(SdrColumn::Squelch)
    } else {
        None
    }
}

/// The bounds within `v` of the trimmed comma-separated fields of `v[lo..hi]`.
pub fn trimmed_field_ranges(v: &Vec<char>, lo: usize, hi: usize) -> (r: Vec<(usize, usize)>)
    requires
        lo <= hi <= v.len(),
    ensures
        r.len() == trimmed_fields(v@.subrange(lo as int, hi as int)).len(),
        forall|k: int|
            0 <= k < r.len() ==> (#[trigger] r@[k]).0 <= r@[k].1 <= v.len() && v@.subrange(
                r@[k].0 as int,
                r@[k].1 as int,
            ) == trimmed_fields(v@.subrange(lo as int, hi as int))[k],
{
    let pieces = split_ranges(v, lo, hi, ',');
    let ghost fs = trimmed_fields(v@.subrange(lo as int, hi as int));
    let mut r: Vec<(usize, usize)> = Vec::new();
    let mut k: usize = 0;
    while k < pieces.len()
        invariant
            k <= pieces.len(),
            lo <= hi <= v.len(),
            fs == trimmed_fields(v@.subrange(lo as int, hi as int)),
            pieces.len() == split(v@.subrange(lo as int, hi as int), ',').len(),
            forall|i: int|
                0 <= i < pieces.len() ==> lo <= (#[trigger] pieces@[i]).0 <= pieces@[i].1 <= hi
                    && v@.subrange(pieces@[i].0 as int, pieces@[i].1 as int) == split(
                    v@.subrange(lo as int, hi as int),
                    ',',
                )[i],
            r.len() == k,
            forall|i: int|
                0 <= i < k ==> (#[trigger] r@[i]).0 <= r@[i].1 <= v.len() && v@.subrange(
                    r@[i].0 as int,
                    r@[i].1 as int,
                ) == fs[i],
        decreases pieces.len() - k,
    {
        let (a, b) = pieces[k];
        let (ta, tb) = trim_range(v, a, b);
        r.push((ta, tb));
        k += 1;
    }
    r
}

/// Reads the header line `v[lo..hi]` into its columns.
fn read_header(v: &Vec<char>, lo: usize, hi: usize) -> (r: Result<Vec<SdrColumn>, ParseFreqsError>)
    requires
        lo <= hi <= v.len(),
    ensures
        match r {
            Ok(cols) => sdr_header(trimmed_fields(v@.subrange(lo as int, hi as int))) == Ok::<
                Seq<SdrColumn>,
                ParseFreqsFault,
            >(cols@),
            Err(e) => sdr_header(trimmed_fields(v@.subrange(lo as int, hi as int))) == Err::<
                Seq<SdrColumn>,
                ParseFreqsFault,
            >(e@),
        },
{
    let fields = trimmed_field_ranges(v, lo, hi);
    let ghost fs = trimmed_fields(v@.subrange(lo as int, hi as int));
    let mut cols: Vec<SdrColumn> = Vec::new();
    let mut k: usize = 0;
    assert(fs.skip(0) =~= fs);
    while k < fields.len()
        invariant
            k <= fields.len(),
            lo <= hi <= v.len(),
            fs == trimmed_fields(v@.subrange(lo as int, hi as int)),
            fields.len() == fs.len(),
            forall|i: int|
                0 <= i < fields.len() ==> (#[trigger] fields@[i]).0 <= fields@[i].1 <= v.len()
                    && v@.subrange(fields@[i].0 as int, fields@[i].1 as int) == fs[i],
            sdr_header(fs) == (match sdr_header(fs.skip(k as int)) {
                Err(e) => Err(e),
                Ok(rest) => Ok(cols@ + rest),
            }),
        decreases fields.len() - k,
    {
        let (a, b) = fields[k];
        let ghost t = fs.skip(k as int);
        assert(t[0] == fs[k as int]);
        assert(t.drop_first() =~= fs.skip(k + 1));
        match column_of(v, a, b) {
            None => {
                return Err(ParseFreqsError::UnexpectedCsvHeader(string_from_range(v, a, b)));
            },
            Some(c) => {
                let ghost before = cols@;
                cols.push(c);
                proof {
                    match sdr_header(fs.skip(k + 1)) {
                        Ok(rest) => {
                            assert(before + (seq![c] + rest) =~= cols@ + rest);
                        },
                        Err(_) => {},
                    }
                }
            },
        }
        k += 1;
    }
    assert(fs.skip(fields.len() as int) =~= Seq::<Seq<char>>::empty());
    assert(cols@ + Seq::<SdrColumn>::empty() =~= cols@);
    Ok(cols)
}

/// Reads the field `v[a..b]` of column `c` into `f`.
fn apply_field<P: Fn(String) -> Option<u64>>(
    f: &mut Freq,
    c: SdrColumn,
    v: &Vec<char>,
    a: usize,
    b: usize,
    parse: &P,
) -> (r: Result<(), ParseFreqsError>)
    requires
        a <= b <= v.len(),
        reads_levels(*parse),
    ensures
        match r {
            Ok(()) => sdr_apply(old(f)@, c, v@.subrange(a as int, b as int), *parse) == Ok::<
                FreqView,
                ParseFreqsFault,
            >(final(f)@),
            Err(e) => sdr_apply(old(f)@, c, v@.subrange(a as int, b as int), *parse) == Err::<
                FreqView,
                ParseFreqsFault,
            >(e@),
        },
{
    let ghost field = v@.subrange(a as int, b as int);
    match c {
        SdrColumn::Hertz => match parse_unsigned_range(v, a, b, 0xffff_ffff_ffff_ffff) {
            Err(k) => Err(ParseFreqsError::ParseHertz(k, string_from_range(v, a, b))),
            Ok(n) => Freq::set_value(&mut f.freq_hertz, n),
        },
        SdrColumn::Enable => match parse_bool_range(v, a, b) {
            None => Err(ParseFreqsError::ParseEnabled(string_from_range(v, a, b))),
            Some(x) => Freq::set_value(&mut f.enabled, x),
        },
        SdrColumn::Notes => Freq::set_value(&mut f.notes.station, string_from_range(v, a, b)),
        SdrColumn::Channel => Freq::set_value(&mut f.channel, string_from_range(v, a, b)),
        SdrColumn::Bandwidth => match parse_unsigned_range(v, a, b, 0xffff_ffff) {
            Err(k) => Err(ParseFreqsError::ParseBandwidthHertz(k, string_from_range(v, a, b))),
            Ok(n) => Freq::set_value(&mut f.channel_bandwidth.hertz, n as u32),
        },
        SdrColumn::Threshold => {
            let s = string_from_range(v, a, b);
            let ghost sv = s;
            let parsed = parse(s);
            proof {
                lemma_parsed_level(*parse, sv, parsed);
            }
            match parsed {
                None => Err(ParseFreqsError::ParseDecibel(string_from_range(v, a, b))),
                Some(d) => Freq::set_value(&mut f.threshold.decibel, d),
            }
        },
        SdrColumn::Squelch => {
            let s = string_from_range(v, a, b);
            let ghost sv = s;
            let parsed = parse(s);
            proof {
                lemma_parsed_level(*parse, sv, parsed);
            }
            match parsed {
                None => Err(ParseFreqsError::ParseDecibel(string_from_range(v, a, b))),
                Some(d) => Freq::set_value(&mut f.squelch.decibel, d),
            }
        },
    }
}


/// Reads the data line `v[lo..hi]` under the columns `cols`.
fn read_row<P: Fn(String) -> Option<u64>>(
    cols: &Vec<SdrColumn>,
    v: &Vec<char>,
    lo: usize,
    hi: usize,
    parse: &P,
) -> (r: Result<Freq, ParseFreqsError>)
    requires
        lo <= hi <= v.len(),
        reads_levels(*parse),
    ensures
        match r {
            Ok(f) => sdr_row(
                cols@,
                trimmed_fields(v@.subrange(lo as int, hi as int)),
                empty_freq(),
                *parse,
            ) == Ok::<FreqView, ParseFreqsFault>(f@),
            Err(e) => sdr_row(
                cols@,
                trimmed_fields(v@.subrange(lo as int, hi as int)),
                empty_freq(),
                *parse,
            ) == Err::<FreqView, ParseFreqsFault>(e@),
        },
{
    let fields = trimmed_field_ranges(v, lo, hi);
    let ghost fs = trimmed_fields(v@.subrange(lo as int, hi as int));
    let ghost pieces = split(v@.subrange(lo as int, hi as int), ',');
    let mut f = Freq::new();
    let n = if cols.len() < fields.len() {
        cols.len()
    } else {
        fields.len()
    };
    let mut k: usize = 0;
    assert(fs.skip(0) =~= fs);
    assert(cols@.skip(0) =~= cols@);
    while k < n
        invariant
            k <= n,
            lo <= hi <= v.len(),
            fs == trimmed_fields(v@.subrange(lo as int, hi as int)),
            pieces == split(v@.subrange(lo as int, hi as int), ','),
            n <= cols.len(),
            n <= fields.len(),
            n == cols.len() || n == fields.len(),
            reads_levels(*parse),
            fields.len() == fs.len(),
            fs == pieces.map_values(|p: Seq<char>| trim(p)),
            forall|i: int|
                0 <= i < fields.len() ==> (#[trigger] fields@[i]).0 <= fields@[i].1 <= v.len()
                    && v@.subrange(fields@[i].0 as int, fields@[i].1 as int) == fs[i],
            sdr_row(cols@, fs, empty_freq(), *parse) == sdr_row(
                cols@.skip(k as int),
                fs.skip(k as int),
                f@,
                *parse,
            ),
        decreases n - k,
    {
        let (a, b) = fields[k];
        let ghost t = fs.skip(k as int);
        let ghost cs = cols@.skip(k as int);
        proof {
            assert(t[0] == fs[k as int]);
            assert(cs[0] == cols@[k as int]);
            assert(t.drop_first() =~= fs.skip(k + 1));
            assert(cs.drop_first() =~= cols@.skip(k + 1));
            assert(fs[k as int] == trim(pieces[k as int]));
            lemma_trim_idempotent(pieces[k as int]);
        }
        if a < b {
            match apply_field(&mut f, cols[k], v, a, b, parse) {
                Ok(()) => {},
                Err(e) => {
                    return Err(e);
                },
            }
        }
        k += 1;
    }
    proof {
        if n == cols.len() {
            assert(cols@.skip(n as int).len() == 0);
        } else {
            assert(fs.skip(n as int).len() == 0);
        }
    }
    Ok(f)
}

/// Reads an SDRangel table: the header line names the columns, each non-blank line after it
/// is an entry.
pub fn read_sdrangel_text<P: Fn(String) -> Option<u64>>(text: &str, parse: &P) -> (r: Result<
    Vec<Freq>,
    ParseFreqsError,
>)
    requires
        reads_levels(*parse),
    ensures
        match r {
            Ok(fs) => read_sdrangel(text@, *parse) == Ok::<Seq<FreqView>, ParseFreqsFault>(
                views(fs@),
            ),
            Err(e) => read_sdrangel(text@, *parse) == Err::<Seq<FreqView>, ParseFreqsFault>(e@),
        },
{
    let v = chars_of(text);
    let ls = line_ranges(&v);
    let ghost lines_all = lines(v@);
    if ls.len() == 0 {
        return Err(ParseFreqsError::ExpectedCsvHeader);
    }
    let (h0, h1) = ls[0];
    let cols = match read_header(&v, h0, h1) {
        Ok(c) => c,
        Err(e) => {
            return Err(e);
        },
    };
    let ghost rows = lines_all.drop_first();
    assert(v@.subrange(h0 as int, h1 as int) == lines_all[0]);
    let mut out: Vec<Freq> = Vec::new();
    let mut k: usize = 1;
    assert(rows.skip(0) =~= rows);
    assert(views(out@) =~= Seq::<FreqView>::empty());
    while k < ls.len()
        invariant
            1 <= k <= ls.len(),
            reads_levels(*parse),
            v@ == text@,
            lines_all == lines(v@),
            lines_all.len() > 0,
            read_sdrangel(text@, *parse) == sdr_rows(cols@, rows, *parse),
            ls.len() == lines_all.len(),
            rows == lines_all.drop_first(),
            forall|i: int|
                0 <= i < ls.len() ==> (#[trigger] ls@[i]).0 <= ls@[i].1 <= v.len() && v@.subrange(
                    ls@[i].0 as int,
                    ls@[i].1 as int,
                ) == lines_all[i],
            sdr_rows(cols@, rows, *parse) == (match sdr_rows(cols@, rows.skip(k - 1), *parse) {
                Err(e) => Err(e),
                Ok(rest) => Ok(views(out@) + rest),
            }),
        decreases ls.len() - k,
    {
        let (a, b) = ls[k];
        let ghost t = rows.skip(k - 1);
        proof {
            assert(t[0] == lines_all[k as int]);
            assert(t.drop_first() =~= rows.skip(k as int));
        }
        let (ta, tb) = trim_range(&v, a, b);
        if ta < tb {
            let f = match read_row(&cols, &v, a, b, parse) {
                Ok(f) => f,
                Err(e) => {
                    return Err(e);
                },
            };
            let ghost before = views(out@);
            out.push(f);
            proof {
                assert(views(out@) =~= before.push(f@));
                match sdr_rows(cols@, rows.skip(k as int), *parse) {
                    Ok(rest) => {
                        assert(before + (seq![f@] + rest) =~= views(out@) + rest);
                    },
                    Err(_) => {},
                }
            }
        }
        k += 1;
    }
    proof {
        assert(rows.skip(k - 1).len() == 0);
        assert(views(out@) + Seq::<FreqView>::empty() =~= views(out@));
        assert(v@ == text@);
    }
    Ok(out)
}


// ---------------------------------------------------------------------------
// Writing
// ---------------------------------------------------------------------------

/// The text an entry shows in column `c`: its frequency (or nothing), whether it is enabled
/// (enabled where unset), its notes' text, its channel (or nothing), its bandwidth, and its
/// levels as `format` writes them (the default levels where unset).
pub open spec fn sdr_field_text<F: Fn(u64) -> String>(f: FreqView, c: SdrColumn, format: F) -> Seq<
    char,
> {
    match c {
        SdrColumn::Hertz => match f.freq_hertz {
            Some(n) => decimal(n as nat),
            None => Seq::empty(),
        },
        SdrColumn::Enable => bool_text(
            match f.enabled {
                Some(b) => b,
                None => true,
            },
        ),
        SdrColumn::Notes => notes_text(f.notes),
        SdrColumn::Channel => match f.channel {
            Some(t) => t,
            None => Seq::empty(),
        },
        SdrColumn::Bandwidth => bandwidth_text(f.channel_bandwidth),
        SdrColumn::Threshold => formatted_level(
            format,
            match f.threshold {
                Some(d) => d,
                None => DEFAULT_THRESHOLD_BITS,
            },
        ),
        SdrColumn::Squelch => formatted_level(
            format,
            match f.squelch {
                Some(d) => d,
                None => DEFAULT_SQUELCH_BITS,
            },
        ),
    }
}

/// The texts `fs` joined by commas.
pub open spec fn join_commas(fs: Seq<Seq<char>>) -> Seq<char>
    decreases fs.len(),
{
    if fs.len() == 0 {
        Seq::empty()
    } else if fs.len() == 1 {
        fs[0]
    } else {
        join_commas(fs.drop_last()) + seq![','] + fs.last()
    }
}

/// The header line: the cleaned titles joined by commas.
pub open spec fn sdr_header_line() -> Seq<char> {
    join_commas(sdr_columns().map_values(|c: SdrColumn| clean(sdr_title(c)))) + seq!['\n']
}

/// The line of an entry: its cleaned column texts joined by commas.
pub open spec fn sdr_row_line<F: Fn(u64) -> String>(f: FreqView, format: F) -> Seq<char> {
    join_commas(sdr_columns().map_values(|c: SdrColumn| clean(sdr_field_text(f, c, format))))
        + seq!['\n']
}

/// The lines of the entries `fs`, in order.
pub open spec fn sdr_rows_text<F: Fn(u64) -> String>(fs: Seq<FreqView>, format: F) -> Seq<char>
    decreases fs.len(),
{
    if fs.len() == 0 {
        Seq::empty()
    } else {
        sdr_rows_text(fs.drop_last(), format) + sdr_row_line(fs.last(), format)
    }
}

/// The SDRangel table of the entries `fs`.
pub open spec fn write_sdrangel<F: Fn(u64) -> String>(fs: Seq<FreqView>, format: F) -> Seq<char> {
    sdr_header_line() + sdr_rows_text(fs, format)
}

/// The columns in the order they are written.
fn all_columns() -> (v: Vec<SdrColumn>)
    ensures
        v@ == sdr_columns(),
{
    let v = vec![
        SdrColumn::Hertz,
        SdrColumn::Enable,
        SdrColumn::Notes,
        SdrColumn::Channel,
        SdrColumn::Bandwidth,
        SdrColumn::Threshold,
        SdrColumn::Squelch,
    ];
    assert(v@ =~= sdr_columns());
    v
}

/// The text `f` shows in column `c`.
fn field_chars<F: Fn(u64) -> String>(f: &Freq, c: SdrColumn, format: &F) -> (v: Vec<char>)
    requires
        writes_levels(*format),
    ensures
        v@ == sdr_field_text(f@, c, *format),
{
    let mut v: Vec<char> = Vec::new();
    match c {
        SdrColumn::Hertz => match f.freq_hertz {
            Some(n) => push_decimal(&mut v, n),
            None => {},
        },
        SdrColumn::Enable => {
            let b = match f.enabled {
                Some(b) => b,
                None => true,
            };
            push_bool(&mut v, b);
        },
        SdrColumn::Notes => f.notes.push_text(&mut v),
        SdrColumn::Channel => match &f.channel {
            Some(t) => push_str(&mut v, t.as_str()),
            None => {},
        },
        SdrColumn::Bandwidth => f.channel_bandwidth.push_text(&mut v),
        SdrColumn::Threshold => {
            let bits = f.threshold.shown_level();
            let s = format(bits);
            proof {
                lemma_formatted_level(*format, bits, s);
            }
            push_str(&mut v, s.as_str());
        },
        SdrColumn::Squelch => {
            let bits = f.squelch.shown_level();
            let s = format(bits);
            proof {
                lemma_formatted_level(*format, bits, s);
            }
            push_str(&mut v, s.as_str());
        },
    }
    assert(v@ =~= sdr_field_text(f@, c, *format));
    v
}

/// Appends the texts `fields`, cleaned and joined by commas, and a line feed to `out`.
fn push_line(out: &mut Vec<char>, fields: &Vec<Vec<char>>)
    ensures
        final(out)@ == old(out)@ + join_commas(fields@.map_values(|f: Vec<char>| clean(f@)))
            + seq!['\n'],
{
    let ghost cleaned = fields@.map_values(|f: Vec<char>| clean(f@));
    let mut k: usize = 0;
    assert(cleaned.take(0) =~= Seq::<Seq<char>>::empty());
    while k < fields.len()
        invariant
            k <= fields.len(),
            cleaned == fields@.map_values(|f: Vec<char>| clean(f@)),
            out@ == old(out)@ + join_commas(cleaned.take(k as int)),
        decreases fields.len() - k,
    {
        let ghost before = out@;
        if k > 0 {
            out.push(',');
        }
        push_clean(out, &fields[k]);
        proof {
            let t = cleaned.take(k + 1);
            assert(t.drop_last() =~= cleaned.take(k as int));
            assert(t.last() == clean(fields@[k as int]@));
            if k == 0 {
                assert(out@ =~= old(out)@ + join_commas(t));
            } else {
                assert(out@ =~= old(out)@ + join_commas(t));
            }
        }
        k += 1;
    }
    out.push('\n');
    assert(cleaned.take(fields.len() as int) =~= cleaned);
    assert(final(out)@ =~= old(out)@ + join_commas(cleaned) + seq!['\n']);
}

/// Writes the entries `fs` as an SDRangel table.
pub fn write_sdrangel_text<F: Fn(u64) -> String>(fs: &Vec<Freq>, format: &F) -> (s: String)
    requires
        writes_levels(*format),
    ensures
        s@ == write_sdrangel(views(fs@), *format),
{
    let cols = all_columns();
    let mut out: Vec<char> = Vec::new();
    let mut titles: Vec<Vec<char>> = Vec::new();
    let mut k: usize = 0;
    while k < cols.len()
        invariant
            k <= cols.len(),
            cols@ == sdr_columns(),
            titles@.len() == k,
            forall|i: int| 0 <= i < k ==> (#[trigger] titles@[i])@ == sdr_title(cols@[i]),
        decreases cols.len() - k,
    {
        titles.push(sdr_title_chars(cols[k]));
        k += 1;
    }
    push_line(&mut out, &titles);
    assert(titles@.map_values(|f: Vec<char>| clean(f@)) =~= sdr_columns().map_values(
        |c: SdrColumn| clean(sdr_title(c)),
    ));
    let ghost all = views(fs@);
    let mut i: usize = 0;
    assert(all.take(0) =~= Seq::<FreqView>::empty());
    while i < fs.len()
        invariant
            i <= fs.len(),
            cols@ == sdr_columns(),
            writes_levels(*format),
            all == views(fs@),
            out@ == sdr_header_line() + sdr_rows_text(all.take(i as int), *format),
        decreases fs.len() - i,
    {
        let mut fields: Vec<Vec<char>> = Vec::new();
        let mut k: usize = 0;
        while k < cols.len()
            invariant
                k <= cols.len(),
                i < fs.len(),
                cols@ == sdr_columns(),
                writes_levels(*format),
                fields@.len() == k,
                forall|j: int|
                    0 <= j < k ==> (#[trigger] fields@[j])@ == sdr_field_text(
                        fs@[i as int]@,
                        cols@[j],
                        *format,
                    ),
            decreases cols.len() - k,
        {
            fields.push(field_chars(&fs[i], cols[k], format));
            k += 1;
        }
        let ghost before = out@;
        push_line(&mut out, &fields);
        proof {
            assert(fields@.map_values(|f: Vec<char>| clean(f@)) =~= sdr_columns().map_values(
                |c: SdrColumn| clean(sdr_field_text(fs@[i as int]@, c, *format)),
            ));
            let t = all.take(i + 1);
            assert(t.drop_last() =~= all.take(i as int));
            assert(t.last() == fs@[i as int]@);
            assert(out@ =~= sdr_header_line() + sdr_rows_text(t, *format));
        }
        i += 1;
    }
    assert(all.take(fs.len() as int) =~= all);
    string_from_chars(out)
}


// ---------------------------------------------------------------------------
// Reading back what was written
// ---------------------------------------------------------------------------

/// The cleaned texts of the columns of a header line.
pub open spec fn header_fields() -> Seq<Seq<char>> {
    sdr_columns().map_values(|c: SdrColumn| clean(sdr_title(c)))
}

/// The cleaned texts of the columns of the line of `f`.
pub open spec fn row_fields<F: Fn(u64) -> String>(f: FreqView, format: F) -> Seq<Seq<char>> {
    sdr_columns().map_values(|c: SdrColumn| clean(sdr_field_text(f, c, format)))
}

proof fn lemma_join_split(fs: Seq<Seq<char>>)
    requires
        fs.len() >= 1,
        forall|i: int| 0 <= i < fs.len() ==> lacks(#[trigger] fs[i], ','),
    ensures
        split(join_commas(fs), ',') == fs,
    decreases fs.len(),
{
    if fs.len() == 1 {
        lemma_split_none(fs[0], ',');
        assert(seq![fs[0]] =~= fs);
    } else {
        let p = fs.drop_last();
        assert forall|i: int| 0 <= i < p.len() implies lacks(#[trigger] p[i], ',') by {
            assert(p[i] == fs[i]);
        }
        lemma_join_split(p);
        assert(lacks(fs[fs.len() - 1], ','));
        lemma_split_suffix(join_commas(p), ',', fs.last());
        assert(p.push(fs.last()) =~= fs);
    }
}

proof fn lemma_join_lacks(fs: Seq<Seq<char>>, c: char)
    requires
        c != ',',
        forall|i: int| 0 <= i < fs.len() ==> lacks(#[trigger] fs[i], c),
    ensures
        lacks(join_commas(fs), c),
    decreases fs.len(),
{
    if fs.len() == 1 {
        assert(lacks(fs[0], c));
    } else if fs.len() > 1 {
        let p = fs.drop_last();
        assert forall|i: int| 0 <= i < p.len() implies lacks(#[trigger] p[i], c) by {
            assert(p[i] == fs[i]);
        }
        lemma_join_lacks(p, c);
        assert(lacks(fs[fs.len() - 1], c));
        let j = join_commas(fs);
        let a = join_commas(p);
        assert forall|i: int| 0 <= i < j.len() implies #[trigger] j[i] != c by {
            if i < a.len() {
                assert(j[i] == a[i]);
            } else if i > a.len() {
                assert(j[i] == fs.last()[i - a.len() - 1]);
            }
        }
    }
}

proof fn lemma_join_shape(fs: Seq<Seq<char>>)
    requires
        fs.len() >= 2,
        fs.last().len() > 0,
    ensures
        join_commas(fs).len() > 0,
        join_commas(fs).last() == fs.last().last(),
        join_commas(fs)[join_commas(fs.drop_last()).len() as int] == ',',
{
    let a = join_commas(fs.drop_last());
    let j = join_commas(fs);
    assert(j == a + seq![','] + fs.last());
    assert(j[a.len() as int] == ',');
    assert(j.last() == fs.last()[fs.last().len() - 1]);
}

proof fn lemma_titles_plain(c: SdrColumn)
    ensures
        lacks(sdr_title(c), ','),
        lacks(sdr_title(c), '"'),
        lacks(sdr_title(c), '\n'),
        sdr_title(c).len() > 0,
        !is_space(sdr_title(c)[0]),
        !is_space(sdr_title(c).last()),
        sdr_title(c).last() != '\r',
        sdr_column(sdr_title(c)) == Some(c),
{
    let t = sdr_title(c);
    assert forall|i: int| 0 <= i < t.len() implies #[trigger] t[i] != ',' && t[i] != '"' && t[i]
        != '\n' by {
        assert(t[i] == sdr_title(c)[i]);
    }
    let h = sdr_title(SdrColumn::Hertz);
    let n = sdr_title(SdrColumn::Notes);
    let ch = sdr_title(SdrColumn::Channel);
    let th = sdr_title(SdrColumn::Threshold);
    let sq = sdr_title(SdrColumn::Squelch);
    assert(ch[0] != th[0] && ch[0] != sq[0] && th[0] != sq[0]);
    assert(h.len() == 9 && n.len() == 5 && ch.len() == 7 && th.len() == 7 && sq.len() == 7);
    assert(sdr_title(SdrColumn::Enable).len() == 6 && sdr_title(SdrColumn::Bandwidth).len() == 10);
}

proof fn lemma_header_reads()
    ensures
        lacks(join_commas(header_fields()), '\n'),
        join_commas(header_fields()).len() > 0,
        join_commas(header_fields()).last() != '\r',
        sdr_header(trimmed_fields(join_commas(header_fields()))) == Ok::<
            Seq<SdrColumn>,
            ParseFreqsFault,
        >(sdr_columns()),
{
    let hf = header_fields();
    let cols = sdr_columns();
    assert forall|i: int| 0 <= i < hf.len() implies #[trigger] hf[i] == sdr_title(cols[i]) by {
        lemma_titles_plain(cols[i]);
        lemma_clean_plain(sdr_title(cols[i]));
    }
    assert forall|i: int| 0 <= i < hf.len() implies lacks(#[trigger] hf[i], ',') && lacks(hf[i], '\n')
        && trim(hf[i]) == hf[i] by {
        lemma_titles_plain(cols[i]);
        lemma_trim_solid(hf[i]);
    }
    lemma_join_split(hf);
    lemma_join_lacks(hf, '\n');
    lemma_titles_plain(SdrColumn::Squelch);
    lemma_join_shape(hf);
    let fields = trimmed_fields(join_commas(hf));
    assert(fields =~= hf);
    lemma_header_tail(0);
    assert(hf.skip(0) =~= hf);
    assert(cols.skip(0) =~= cols);
}

proof fn lemma_header_tail(k: int)
    requires
        0 <= k <= 7,
    ensures
        sdr_header(header_fields().skip(k)) == Ok::<Seq<SdrColumn>, ParseFreqsFault>(
            sdr_columns().skip(k),
        ),
    decreases 7 - k,
{
    let hf = header_fields();
    let cols = sdr_columns();
    if k < 7 {
        lemma_header_tail(k + 1);
        let s = hf.skip(k);
        lemma_titles_plain(cols[k]);
        lemma_clean_plain(sdr_title(cols[k]));
        assert(s[0] == sdr_title(cols[k]));
        assert(s.drop_first() =~= hf.skip(k + 1));
        assert(seq![cols[k]] + cols.skip(k + 1) =~= cols.skip(k));
    } else {
        assert(hf.skip(7).len() == 0);
        assert(cols.skip(7) =~= Seq::<SdrColumn>::empty());
    }
}


/// The text `t`, or nothing where it is empty.
pub open spec fn text_or_none(t: Seq<char>) -> Option<Seq<char>> {
    if t.len() == 0 {
        None
    } else {
        Some(t)
    }
}

/// The level shown for `o`: its own, or `default`.
pub open spec fn shown_or(o: Option<u64>, default: u64) -> u64 {
    match o {
        Some(d) => d,
        None => default,
    }
}

/// The entry that reading back the table line written for `f` gives: the frequency; the
/// notes' text (cleaned and trimmed) as the station, where it is not empty; enabled where
/// unset; the channel (cleaned and trimmed) where not empty; and the bandwidth and levels
/// as shown, defaults filled in.
pub open spec fn written_entry(f: FreqView) -> FreqView {
    FreqView {
        freq_hertz: f.freq_hertz,
        notes: NotesView {
            uti: None,
            station: text_or_none(trim(clean(notes_text(f.notes)))),
            language: None,
            location: None,
        },
        enabled: Some(
            match f.enabled {
                Some(b) => b,
                None => true,
            },
        ),
        channel: match f.channel {
            Some(c) => text_or_none(trim(clean(c))),
            None => None,
        },
        channel_bandwidth: Some(
            match f.channel_bandwidth {
                Some(h) => h,
                None => DEFAULT_BANDWIDTH_HERTZ,
            },
        ),
        threshold: Some(shown_or(f.threshold, DEFAULT_THRESHOLD_BITS)),
        squelch: Some(shown_or(f.squelch, DEFAULT_SQUELCH_BITS)),
    }
}

/// Whether the text `format` writes for the level `bits` breaks no line, and reads back by
/// `parse`, once cleaned and trimmed, as `bits`.
pub open spec fn level_reads_back<P: Fn(String) -> Option<u64>, F: Fn(u64) -> String>(
    parse: P,
    format: F,
    bits: u64,
) -> bool {
    let t = formatted_level(format, bits);
    &&& lacks(t, '\n')
    &&& lacks(t, '\r')
    &&& trim(clean(t)).len() > 0
    &&& parsed_level(parse, trim(clean(t))) == Some(bits)
}

/// Whether the line written for `f` reads back: neither its notes nor its channel break the
/// line, and its levels read back.
pub open spec fn reads_back<P: Fn(String) -> Option<u64>, F: Fn(u64) -> String>(
    f: FreqView,
    parse: P,
    format: F,
) -> bool {
    &&& lacks(notes_text(f.notes), '\n')
    &&& f.channel matches Some(c) ==> lacks(c, '\n')
    &&& level_reads_back(parse, format, shown_or(f.threshold, DEFAULT_THRESHOLD_BITS))
    &&& level_reads_back(parse, format, shown_or(f.squelch, DEFAULT_SQUELCH_BITS))
}

proof fn lemma_bool_text_plain(b: bool)
    ensures
        lacks(bool_text(b), ','),
        lacks(bool_text(b), '"'),
        lacks(bool_text(b), '\n'),
        trim(bool_text(b)) == bool_text(b),
        parse_bool(bool_text(b)) == Some(b),
{
    let t = bool_text(b);
    assert forall|i: int| 0 <= i < t.len() implies #[trigger] t[i] != ',' && t[i] != '"' && t[i]
        != '\n' by {
        assert(t[i] == bool_text(b)[i]);
    }
    assert(t.last() == t[t.len() - 1]);
    lemma_trim_solid(t);
}

/// The cleaned and trimmed field of a column of the line of `f`: its text, and what it
/// reads as.
proof fn lemma_field_reads<P: Fn(String) -> Option<u64>, F: Fn(u64) -> String>(
    f: FreqView,
    g: FreqView,
    c: SdrColumn,
    parse: P,
    format: F,
)
    requires
        reads_back(f, parse, format),
    ensures
        lacks(clean(sdr_field_text(f, c, format)), ','),
        lacks(clean(sdr_field_text(f, c, format)), '\n'),
        ({
            let field = trim(clean(sdr_field_text(f, c, format)));
            &&& trim(field) == field
            &&& field.len() > 0 ==> sdr_apply(g, c, field, parse) == match c {
                SdrColumn::Hertz => if g.freq_hertz is Some {
                    Err(ParseFreqsFault::AlreadyDefined)
                } else {
                    Ok(FreqView { freq_hertz: f.freq_hertz, ..g })
                },
                SdrColumn::Enable => if g.enabled is Some {
                    Err(ParseFreqsFault::AlreadyDefined)
                } else {
                    Ok(FreqView { enabled: written_entry(f).enabled, ..g })
                },
                SdrColumn::Notes => if g.notes.station is Some {
                    Err(ParseFreqsFault::AlreadyDefined)
                } else {
                    Ok(
                        FreqView {
                            notes: NotesView { station: written_entry(f).notes.station, ..g.notes },
                            ..g
                        },
                    )
                },
                SdrColumn::Channel => if g.channel is Some {
                    Err(ParseFreqsFault::AlreadyDefined)
                } else {
                    Ok(FreqView { channel: written_entry(f).channel, ..g })
                },
                SdrColumn::Bandwidth => if g.channel_bandwidth is Some {
                    Err(ParseFreqsFault::AlreadyDefined)
                } else {
                    Ok(FreqView { channel_bandwidth: written_entry(f).channel_bandwidth, ..g })
                },
                SdrColumn::Threshold => if g.threshold is Some {
                    Err(ParseFreqsFault::AlreadyDefined)
                } else {
                    Ok(FreqView { threshold: written_entry(f).threshold, ..g })
                },
                SdrColumn::Squelch => if g.squelch is Some {
                    Err(ParseFreqsFault::AlreadyDefined)
                } else {
                    Ok(FreqView { squelch: written_entry(f).squelch, ..g })
                },
            }
            &&& field.len() == 0 ==> match c {
                SdrColumn::Hertz => f.freq_hertz is None,
                SdrColumn::Notes => written_entry(f).notes.station is None,
                SdrColumn::Channel => written_entry(f).channel is None,
                _ => false,
            }
        }),
{
    let t = sdr_field_text(f, c, format);
    let field = trim(clean(t));
    lemma_trim_idempotent(clean(t));
    lemma_clean_lacks(t, '\n');
    match c {
        SdrColumn::Hertz => {
            match f.freq_hertz {
                Some(n) => {
                    lemma_decimal_plain(n as nat);
                    lemma_clean_plain(t);
                    lemma_trim_solid(t);
                    lemma_parse_decimal(n as nat, 0xffff_ffff_ffff_ffff);
                },
                None => {
                    assert(clean(t) =~= Seq::<char>::empty());
                    assert(trim(clean(t)) =~= Seq::<char>::empty());
                },
            }
        },
        SdrColumn::Enable => {
            let b = match f.enabled {
                Some(b) => b,
                None => true,
            };
            lemma_bool_text_plain(b);
            lemma_clean_plain(t);
        },
        SdrColumn::Notes => {},
        SdrColumn::Channel => {
            match f.channel {
                Some(ch) => {},
                None => {
                    assert(clean(t) =~= Seq::<char>::empty());
                    assert(trim(clean(t)) =~= Seq::<char>::empty());
                },
            }
        },
        SdrColumn::Bandwidth => {
            let h = match f.channel_bandwidth {
                Some(h) => h,
                None => DEFAULT_BANDWIDTH_HERTZ,
            };
            lemma_decimal_plain(h as nat);
            lemma_clean_plain(t);
            lemma_trim_solid(t);
            lemma_parse_decimal(h as nat, 0xffff_ffff);
        },
        SdrColumn::Threshold => {},
        SdrColumn::Squelch => {},
    }
}


/// The entry read from the line of `f` after its first `k` columns.
spec fn row_partial(f: FreqView, k: int) -> FreqView {
    let w = written_entry(f);
    FreqView {
        freq_hertz: if k >= 1 {
            w.freq_hertz
        } else {
            None
        },
        notes: NotesView {
            uti: None,
            station: if k >= 3 {
                w.notes.station
            } else {
                None
            },
            language: None,
            location: None,
        },
        enabled: if k >= 2 {
            w.enabled
        } else {
            None
        },
        channel: if k >= 4 {
            w.channel
        } else {
            None
        },
        channel_bandwidth: if k >= 5 {
            w.channel_bandwidth
        } else {
            None
        },
        threshold: if k >= 6 {
            w.threshold
        } else {
            None
        },
        squelch: if k >= 7 {
            w.squelch
        } else {
            None
        },
    }
}

/// The trimmed fields of the line of `f`.
spec fn row_trimmed<F: Fn(u64) -> String>(f: FreqView, format: F) -> Seq<Seq<char>> {
    row_fields(f, format).map_values(|s: Seq<char>| trim(s))
}

proof fn lemma_row_from<P: Fn(String) -> Option<u64>, F: Fn(u64) -> String>(
    f: FreqView,
    k: int,
    parse: P,
    format: F,
)
    requires
        reads_back(f, parse, format),
        0 <= k <= 7,
    ensures
        sdr_row(
            sdr_columns().skip(k),
            row_trimmed(f, format).skip(k),
            row_partial(f, k),
            parse,
        ) == Ok::<FreqView, ParseFreqsFault>(written_entry(f)),
    decreases 7 - k,
{
    let cols = sdr_columns();
    let fields = row_trimmed(f, format);
    if k == 7 {
        assert(cols.skip(7).len() == 0);
    } else {
        lemma_row_from(f, k + 1, parse, format);
        let c = cols[k];
        let g = row_partial(f, k);
        lemma_field_reads(f, g, c, parse, format);
        assert(cols.skip(k)[0] == c);
        assert(fields.skip(k)[0] == trim(clean(sdr_field_text(f, c, format))));
        assert(cols.skip(k).drop_first() =~= cols.skip(k + 1));
        assert(fields.skip(k).drop_first() =~= fields.skip(k + 1));
        if k == 0 {
            assert(c == SdrColumn::Hertz);
        } else if k == 1 {
            assert(c == SdrColumn::Enable);
        } else if k == 2 {
            assert(c == SdrColumn::Notes);
        } else if k == 3 {
            assert(c == SdrColumn::Channel);
        } else if k == 4 {
            assert(c == SdrColumn::Bandwidth);
        } else if k == 5 {
            assert(c == SdrColumn::Threshold);
        } else {
            assert(c == SdrColumn::Squelch);
        }
    }
}

proof fn lemma_row_reads<P: Fn(String) -> Option<u64>, F: Fn(u64) -> String>(
    f: FreqView,
    parse: P,
    format: F,
)
    requires
        reads_back(f, parse, format),
    ensures
        lacks(join_commas(row_fields(f, format)), '\n'),
        join_commas(row_fields(f, format)).len() > 0,
        join_commas(row_fields(f, format)).last() != '\r',
        trim(join_commas(row_fields(f, format))).len() > 0,
        sdr_row(
            sdr_columns(),
            trimmed_fields(join_commas(row_fields(f, format))),
            empty_freq(),
            parse,
        ) == Ok::<FreqView, ParseFreqsFault>(written_entry(f)),
{
    let rf = row_fields(f, format);
    let cols = sdr_columns();
    assert forall|i: int| 0 <= i < rf.len() implies lacks(#[trigger] rf[i], ',') && lacks(
        rf[i],
        '\n',
    ) by {
        lemma_field_reads(f, empty_freq(), cols[i], parse, format);
    }
    lemma_join_split(rf);
    lemma_join_lacks(rf, '\n');
    let t = formatted_level(format, shown_or(f.squelch, DEFAULT_SQUELCH_BITS));
    assert(rf.last() == clean(t));
    lemma_trim_shape(clean(t));
    lemma_clean_lacks(t, '\r');
    assert(clean(t).last() == clean(t)[clean(t).len() - 1]);
    lemma_join_shape(rf);
    let j = join_commas(rf);
    lemma_trim_nonblank(j, join_commas(rf.drop_last()).len() as int);
    assert(trimmed_fields(j) =~= row_trimmed(f, format));
    lemma_row_from(f, 0, parse, format);
    assert(cols.skip(0) =~= cols);
    assert(row_trimmed(f, format).skip(0) =~= row_trimmed(f, format));
    assert(row_partial(f, 0) == empty_freq());
}


/// The lines of the entries `fs` as written, without their line feeds.
spec fn row_contents<F: Fn(u64) -> String>(fs: Seq<FreqView>, format: F) -> Seq<Seq<char>> {
    fs.map_values(|f: FreqView| join_commas(row_fields(f, format)))
}

proof fn lemma_written_split<P: Fn(String) -> Option<u64>, F: Fn(u64) -> String>(
    fs: Seq<FreqView>,
    parse: P,
    format: F,
)
    requires
        forall|i: int| 0 <= i < fs.len() ==> reads_back(#[trigger] fs[i], parse, format),
    ensures
        write_sdrangel(fs, format).len() > 0,
        write_sdrangel(fs, format).last() == '\n',
        split(write_sdrangel(fs, format).drop_last(), '\n') == seq![join_commas(header_fields())]
            + row_contents(fs, format),
    decreases fs.len(),
{
    let hc = join_commas(header_fields());
    lemma_header_reads();
    assert(sdr_header_line() =~= hc + seq!['\n']);
    if fs.len() == 0 {
        assert(write_sdrangel(fs, format) =~= hc + seq!['\n']);
        assert(write_sdrangel(fs, format).drop_last() =~= hc);
        lemma_split_none(hc, '\n');
        assert(row_contents(fs, format) =~= Seq::<Seq<char>>::empty());
        assert(seq![hc] + Seq::<Seq<char>>::empty() =~= seq![hc]);
    } else {
        let p = fs.drop_last();
        let f = fs.last();
        assert forall|i: int| 0 <= i < p.len() implies reads_back(#[trigger] p[i], parse, format) by {
            assert(p[i] == fs[i]);
        }
        assert(reads_back(fs[fs.len() - 1], parse, format));
        lemma_written_split(p, parse, format);
        lemma_row_reads(f, parse, format);
        let rc = join_commas(row_fields(f, format));
        assert(sdr_row_line(f, format) =~= rc + seq!['\n']);
        let wp = write_sdrangel(p, format);
        let x = wp.drop_last();
        assert(wp =~= x + seq!['\n']);
        assert(write_sdrangel(fs, format) =~= wp + rc + seq!['\n']);
        assert(write_sdrangel(fs, format).drop_last() =~= x + seq!['\n'] + rc);
        lemma_split_suffix(x, '\n', rc);
        assert(row_contents(fs, format) =~= row_contents(p, format).push(rc));
        assert((seq![hc] + row_contents(p, format)).push(rc) =~= seq![hc] + row_contents(
            fs,
            format,
        ));
    }
}

proof fn lemma_rows_read<P: Fn(String) -> Option<u64>, F: Fn(u64) -> String>(
    rows: Seq<Seq<char>>,
    fs: Seq<FreqView>,
    parse: P,
    format: F,
)
    requires
        rows.len() == fs.len(),
        forall|i: int| 0 <= i < fs.len() ==> reads_back(#[trigger] fs[i], parse, format),
        forall|i: int| 0 <= i < fs.len() ==> #[trigger] rows[i] == join_commas(row_fields(fs[i], format)),
    ensures
        sdr_rows(sdr_columns(), rows, parse) == Ok::<Seq<FreqView>, ParseFreqsFault>(
            fs.map_values(|f: FreqView| written_entry(f)),
        ),
    decreases rows.len(),
{
    if rows.len() == 0 {
        assert(fs.map_values(|f: FreqView| written_entry(f)) =~= Seq::<FreqView>::empty());
    } else {
        let f = fs[0];
        assert(reads_back(fs[0], parse, format));
        assert(rows[0] == join_commas(row_fields(fs[0], format)));
        lemma_row_reads(f, parse, format);
        let r2 = rows.drop_first();
        let f2 = fs.drop_first();
        assert forall|i: int| 0 <= i < f2.len() implies reads_back(#[trigger] f2[i], parse, format) by {
            assert(f2[i] == fs[i + 1]);
        }
        assert forall|i: int| 0 <= i < f2.len() implies #[trigger] r2[i] == join_commas(
            row_fields(f2[i], format),
        ) by {
            assert(f2[i] == fs[i + 1]);
            assert(r2[i] == rows[i + 1]);
        }
        lemma_rows_read(r2, f2, parse, format);
        assert(seq![written_entry(f)] + f2.map_values(|f: FreqView| written_entry(f)) =~= fs.map_values(
            |f: FreqView| written_entry(f),
        ));
    }
}

/// Reading back a written table gives each entry as [`written_entry`] describes it, where
/// the texts of the entries break no line and the levels read back as written: the
/// frequency, the notes' text as the station, and every other field as it was written, the
/// defaults filled in.
pub proof fn lemma_write_then_read<P: Fn(String) -> Option<u64>, F: Fn(u64) -> String>(
    fs: Seq<FreqView>,
    parse: P,
    format: F,
)
    requires
        forall|i: int| 0 <= i < fs.len() ==> reads_back(#[trigger] fs[i], parse, format),
    ensures
        read_sdrangel(write_sdrangel(fs, format), parse) == Ok::<Seq<FreqView>, ParseFreqsFault>(
            fs.map_values(|f: FreqView| written_entry(f)),
        ),
{
    let w = write_sdrangel(fs, format);
    let hc = join_commas(header_fields());
    lemma_written_split(fs, parse, format);
    lemma_header_reads();
    let x = w.drop_last();
    assert(w =~= x + seq!['\n'] + Seq::<char>::empty());
    assert(lacks(Seq::<char>::empty(), '\n'));
    lemma_split_suffix(x, '\n', Seq::<char>::empty());
    let p = split(w, '\n');
    let q = seq![hc] + row_contents(fs, format);
    assert(p == q.push(Seq::<char>::empty()));
    assert(p.drop_last() =~= q);
    let ls = lines(w);
    assert forall|i: int| 0 <= i < q.len() implies strip_cr(#[trigger] q[i]) == q[i] by {
        if i == 0 {
            assert(q[0] == hc);
        } else {
            assert(q[i] == join_commas(row_fields(fs[i - 1], format)));
            lemma_row_reads(fs[i - 1], parse, format);
        }
    }
    assert(ls =~= q);
    assert(ls[0] == hc);
    let rows = ls.drop_first();
    assert forall|i: int| 0 <= i < fs.len() implies #[trigger] rows[i] == join_commas(
        row_fields(fs[i], format),
    ) by {
        assert(rows[i] == q[i + 1]);
    }
    lemma_rows_read(rows, fs, parse, format);
}


/// Whether `t` is a non-empty text without commas and double quotes that trimming leaves as
/// it is.
pub open spec fn plain_text(t: Seq<char>) -> bool {
    &&& t.len() > 0
    &&& trim(t) == t
    &&& lacks(t, ',')
    &&& lacks(t, '"')
}

/// Whether `f` is written and read back unchanged: every field set, the notes holding a
/// station only, and the station and the channel plain texts.
pub open spec fn written_exactly(f: FreqView) -> bool {
    &&& f.freq_hertz is Some
    &&& f.enabled is Some
    &&& f.channel_bandwidth is Some
    &&& f.threshold is Some
    &&& f.squelch is Some
    &&& f.notes.uti is None
    &&& f.notes.language is None
    &&& f.notes.location is None
    &&& f.notes.station matches Some(t) && plain_text(t)
    &&& f.channel matches Some(c) && plain_text(c)
}

/// Reading back a written table gives back the very entries written, where each has every
/// field set, only a station in its notes, plain texts, no line break, and levels that read
/// back as written.
pub proof fn lemma_write_then_read_exact<P: Fn(String) -> Option<u64>, F: Fn(u64) -> String>(
    fs: Seq<FreqView>,
    parse: P,
    format: F,
)
    requires
        forall|i: int| 0 <= i < fs.len() ==> reads_back(#[trigger] fs[i], parse, format),
        forall|i: int| 0 <= i < fs.len() ==> written_exactly(#[trigger] fs[i]),
    ensures
        read_sdrangel(write_sdrangel(fs, format), parse) == Ok::<Seq<FreqView>, ParseFreqsFault>(fs),
{
    lemma_write_then_read(fs, parse, format);
    assert forall|i: int| 0 <= i < fs.len() implies written_entry(#[trigger] fs[i]) == fs[i] by {
        let f = fs[i];
        assert(written_exactly(f));
        let t = f.notes.station->0;
        let c = f.channel->0;
        assert(notes_text(f.notes) =~= t);
        lemma_clean_plain(t);
        lemma_clean_plain(c);
    }
    assert(fs.map_values(|f: FreqView| written_entry(f)) =~= fs);
}


proof fn lemma_strip_cr_fields(l: Seq<char>)
    ensures
        trimmed_fields(strip_cr(l)) == trimmed_fields(l),
        trim(strip_cr(l)).len() == 0 <==> trim(l).len() == 0,
{
    if l.len() > 0 && l.last() == '\r' {
        let s = l.drop_last();
        assert(l =~= s.push('\r'));
        assert(is_space('\r'));
        lemma_trim_push_space(s, '\r');
        lemma_split_push(s, ',', '\r');
        let p = split(s, ',');
        lemma_trim_push_space(p.last(), '\r');
        let q = split(l, ',');
        assert(q == p.drop_last().push(p.last().push('\r')));
        assert(trimmed_fields(l) =~= trimmed_fields(s)) by {
            assert forall|i: int| 0 <= i < q.len() implies #[trigger] trim(q[i]) == trim(p[i]) by {
                if i < q.len() - 1 {
                    assert(q[i] == p[i]);
                }
            }
        }
    }
}

proof fn lemma_rows_alike<P: Fn(String) -> Option<u64>>(
    cols: Seq<SdrColumn>,
    r1: Seq<Seq<char>>,
    r2: Seq<Seq<char>>,
    parse: P,
)
    requires
        r1.len() == r2.len(),
        forall|i: int| 0 <= i < r1.len() ==> #[trigger] trimmed_fields(r1[i]) == trimmed_fields(r2[i]),
        forall|i: int| 0 <= i < r1.len() ==> (trim(#[trigger] r1[i]).len() == 0 <==> trim(r2[i]).len() == 0),
    ensures
        sdr_rows(cols, r1, parse) == sdr_rows(cols, r2, parse),
    decreases r1.len(),
{
    if r1.len() > 0 {
        let a = r1.drop_first();
        let b = r2.drop_first();
        assert(trimmed_fields(r1[0]) == trimmed_fields(r2[0]));
        assert(trim(r1[0]).len() == 0 <==> trim(r2[0]).len() == 0);
        assert forall|i: int| 0 <= i < a.len() implies #[trigger] trimmed_fields(a[i]) == trimmed_fields(b[i]) by {
            assert(a[i] == r1[i + 1] && b[i] == r2[i + 1]);
        }
        assert forall|i: int| 0 <= i < a.len() implies (trim(#[trigger] a[i]).len() == 0 <==> trim(b[i]).len() == 0) by {
            assert(a[i] == r1[i + 1] && b[i] == r2[i + 1]);
        }
        lemma_rows_alike(cols, a, b, parse);
    }
}

/// A final line feed changes nothing: a table whose last line has none reads as it does
/// with one, so its last row is an entry like any other.
pub proof fn lemma_final_feed_reads_alike<P: Fn(String) -> Option<u64>>(t: Seq<char>, parse: P)
    requires
        t.len() > 0,
        t.last() != '\n',
    ensures
        read_sdrangel(t + seq!['\n'], parse) == read_sdrangel(t, parse),
{
    let u = t + seq!['\n'];
    lemma_lines_final_feed(t);
    let l1 = lines(t);
    let l2 = lines(u);
    let n = l1.len();
    assert forall|i: int| 0 <= i < n implies #[trigger] trimmed_fields(l2[i]) == trimmed_fields(l1[i])
        && (trim(l2[i]).len() == 0 <==> trim(l1[i]).len() == 0) by {
        if i < n - 1 {
            assert(l2[i] == l1[i]);
        } else {
            assert(l2[i] == strip_cr(l1[i]));
            lemma_strip_cr_fields(l1[i]);
        }
    }
    let a = l1.drop_first();
    let b = l2.drop_first();
    assert forall|i: int| 0 <= i < a.len() implies #[trigger] trimmed_fields(a[i]) == trimmed_fields(b[i]) by {
        assert(a[i] == l1[i + 1] && b[i] == l2[i + 1]);
    }
    assert forall|i: int| 0 <= i < a.len() implies (trim(#[trigger] a[i]).len() == 0 <==> trim(b[i]).len() == 0) by {
        assert(a[i] == l1[i + 1] && b[i] == l2[i + 1]);
        assert(trimmed_fields(l2[i + 1]) == trimmed_fields(l1[i + 1]));
    }
    assert(trimmed_fields(l2[0]) == trimmed_fields(l1[0]));
    match sdr_header(trimmed_fields(l1[0])) {
        Ok(cols) => {
            lemma_rows_alike(cols, a, b, parse);
        },
        Err(_) => {},
    }
}

} // verus!
