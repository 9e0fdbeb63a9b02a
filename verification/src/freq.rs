//! One entry of a frequency list, how entries are shown, ordered and merged.

use vstd::prelude::*;

use core::cmp::Ordering;
use vstd::std_specs::cmp::{PartialEqSpecImpl, PartialOrdSpecImpl};

use crate::error::{ParseFreqsError, ParseFreqsFault};
use crate::level::{
    level_is_nan, compare_levels, level_finite, level_is_finite, level_order, midpoint_level, averages_levels,
    lemma_midpoint_level, DEFAULT_SQUELCH_BITS, DEFAULT_THRESHOLD_BITS,
};
use crate::text::{
    lemma_text_less_order, chars_equal, clean, push_clean, chars_less, chars_of, decimal, push_decimal, string_from_chars, text_less,
    trim, trim_range,
};

verus! {

// ---------------------------------------------------------------------------
// Notes
// ---------------------------------------------------------------------------

/// The free-text notes of an entry.
#[derive(Debug, Clone)]
pub struct Notes {
    pub uti: Option<String>,
    pub station: Option<String>,
    pub language: Option<String>,
    pub location: Option<String>,
}

/// [`Notes`] with its texts as character sequences.
pub struct NotesView {
    pub uti: Option<Seq<char>>,
    pub station: Option<Seq<char>>,
    pub language: Option<Seq<char>>,
    pub location: Option<Seq<char>>,
}

/// The characters of an optional string.
pub open spec fn opt_text(o: Option<String>) -> Option<Seq<char>> {
    match o {
        Some(s) => Some(s@),
        None => None,
    }
}

impl View for Notes {
    type V = NotesView;

    open spec fn view(&self) -> NotesView {
        NotesView {
            uti: opt_text(self.uti),
            station: opt_text(self.station),
            language: opt_text(self.language),
            location: opt_text(self.location),
        }
    }
}

/// The text notes are shown as: `[uti] station (language) [location]`, each part only where
/// it is set, and `???` for a missing station.
pub open spec fn notes_text(n: NotesView) -> Seq<char> {
    wrapped(n.uti, seq!['['], seq![']', ' ']) + (match n.station {
        Some(s) => s,
        None => seq!['?', '?', '?'],
    }) + wrapped(n.language, seq![' ', '('], seq![')']) + wrapped(
        n.location,
        seq![' ', '['],
        seq![']'],
    )
}

/// Appends the characters of `s` to `out`.
pub fn push_str(out: &mut Vec<char>, s: &str)
    ensures
        final(out)@ == old(out)@ + s@,
{
    let v = chars_of(s);
    push_chars(out, &v);
}

/// `before + t + after` where `o` holds the text `t`, and nothing where `o` is empty.
pub open spec fn wrapped(o: Option<Seq<char>>, before: Seq<char>, after: Seq<char>) -> Seq<char> {
    match o {
        Some(t) => before + t + after,
        None => Seq::empty(),
    }
}

/// Appends the characters of `v` to `out`.
pub fn push_chars(out: &mut Vec<char>, v: &Vec<char>)
    ensures
        final(out)@ == old(out)@ + v@,
{
    let mut i: usize = 0;
    while i < v.len()
        invariant
            i <= v.len(),
            out@ == old(out)@ + v@.take(i as int),
        decreases v.len() - i,
    {
        out.push(v[i]);
        i += 1;
        assert(out@ =~= old(out)@ + v@.take(i as int));
    }
    assert(v@.take(v.len() as int) =~= v@);
}

/// Appends `before`, the text of `o` and `after` to `out` where `o` holds a text.
pub fn push_wrapped(out: &mut Vec<char>, o: &Option<String>, before: &Vec<char>, after: &Vec<char>)
    ensures
        final(out)@ == old(out)@ + wrapped(opt_text(*o), before@, after@),
{
    match o {
        Some(t) => {
            push_chars(out, before);
            push_str(out, t.as_str());
            push_chars(out, after);
            assert(final(out)@ =~= old(out)@ + wrapped(opt_text(*o), before@, after@));
        },
        None => {
            assert(final(out)@ =~= old(out)@ + wrapped(opt_text(*o), before@, after@));
        },
    }
}

impl Notes {
    /// Notes with nothing set.
    pub fn new() -> (n: Notes)
        ensures
            n@ == (NotesView { uti: None, station: None, language: None, location: None }),
    {
        Notes { uti: None, station: None, language: None, location: None }
    }

    /// Appends the text of these notes to `out`.
    pub fn push_text(&self, out: &mut Vec<char>)
        ensures
            final(out)@ == old(out)@ + notes_text(self@),
    {
        let open_bracket = vec!['['];
        let close_bracket = vec![']', ' '];
        let open_paren = vec![' ', '('];
        let close_paren = vec![')'];
        let open_place = vec![' ', '['];
        let close_place = vec![']'];
        push_wrapped(out, &self.uti, &open_bracket, &close_bracket);
        let ghost o1 = out@;
        match &self.station {
            Some(s) => {
                push_str(out, s.as_str());
            },
            None => {
                out.push('?');
                out.push('?');
                out.push('?');
            },
        }
        let ghost o2 = out@;
        push_wrapped(out, &self.language, &open_paren, &close_paren);
        let ghost o3 = out@;
        push_wrapped(out, &self.location, &open_place, &close_place);
        proof {
            assert(open_bracket@ =~= seq!['[']);
            assert(close_bracket@ =~= seq![']', ' ']);
            assert(open_paren@ =~= seq![' ', '(']);
            assert(close_paren@ =~= seq![')']);
            assert(open_place@ =~= seq![' ', '[']);
            assert(close_place@ =~= seq![']']);
            let n = self@;
            let b = match n.station {
                Some(s) => s,
                None => seq!['?', '?', '?'],
            };
            assert(o2 =~= o1 + b);
            assert(final(out)@ =~= old(out)@ + notes_text(n));
        }
    }

    /// The characters of the text of these notes.
    pub fn text(&self) -> (v: Vec<char>)
        ensures
            v@ == notes_text(self@),
    {
        let mut v: Vec<char> = Vec::new();
        self.push_text(&mut v);
        assert(v@ =~= notes_text(self@));
        v
    }

    /// The text these notes are shown as.
    pub fn to_string(&self) -> (s: String)
        ensures
            s@ == notes_text(self@),
    {
        string_from_chars(self.text())
    }
}


// ---------------------------------------------------------------------------
// Entries
// ---------------------------------------------------------------------------

/// The bandwidth of a channel in hertz, where one is set.
#[derive(Debug, Clone, Copy, PartialEq, Eq, Structural)]
pub struct ChannelBandwidth {
    pub hertz: Option<u32>,
}

/// The bandwidth shown where none is set.
pub const DEFAULT_BANDWIDTH_HERTZ: u32 = 8000;

/// A squelch level, as the bit pattern of a binary64 number of decibels.
#[derive(Debug, Clone, Copy, PartialEq, Eq, Structural)]
pub struct Squelch {
    pub decibel: Option<u64>,
}

/// A threshold level, as the bit pattern of a binary64 number of decibels.
#[derive(Debug, Clone, Copy, PartialEq, Eq, Structural)]
pub struct Threshold {
    pub decibel: Option<u64>,
}

/// The text a channel bandwidth is shown as: its hertz, or 8000.
pub open spec fn bandwidth_text(hertz: Option<u32>) -> Seq<char> {
    match hertz {
        Some(h) => decimal(h as nat),
        None => decimal(DEFAULT_BANDWIDTH_HERTZ as nat),
    }
}

impl ChannelBandwidth {
    /// Appends the text of this bandwidth to `out`.
    pub fn push_text(&self, out: &mut Vec<char>)
        ensures
            final(out)@ == old(out)@ + bandwidth_text(self.hertz),
    {
        match self.hertz {
            Some(h) => push_decimal(out, h as u64),
            None => push_decimal(out, DEFAULT_BANDWIDTH_HERTZ as u64),
        }
    }

    /// The text this bandwidth is shown as: its hertz, or 8000.
    pub fn to_string(&self) -> (s: String)
        ensures
            s@ == bandwidth_text(self.hertz),
    {
        let mut v: Vec<char> = Vec::new();
        self.push_text(&mut v);
        assert(v@ =~= bandwidth_text(self.hertz));
        string_from_chars(v)
    }
}

impl Squelch {
    /// The level this squelch is shown as: its own, or -120 dB.
    pub fn shown_level(&self) -> (bits: u64)
        ensures
            bits == match self.decibel {
                Some(d) => d,
                None => DEFAULT_SQUELCH_BITS,
            },
    {
        match self.decibel {
            Some(d) => d,
            None => DEFAULT_SQUELCH_BITS,
        }
    }
}

impl Threshold {
    /// The level this threshold is shown as: its own, or -70 dB.
    pub fn shown_level(&self) -> (bits: u64)
        ensures
            bits == match self.decibel {
                Some(d) => d,
                None => DEFAULT_THRESHOLD_BITS,
            },
    {
        match self.decibel {
            Some(d) => d,
            None => DEFAULT_THRESHOLD_BITS,
        }
    }
}

/// One entry of a frequency list.
#[derive(Debug, Clone)]
pub struct Freq {
    pub freq_hertz: Option<u64>,
    pub notes: Notes,
    pub enabled: Option<bool>,
    pub channel: Option<String>,
    pub channel_bandwidth: ChannelBandwidth,
    pub threshold: Threshold,
    pub squelch: Squelch,
}

/// [`Freq`] with its texts as character sequences and its wrappers taken off.
pub struct FreqView {
    pub freq_hertz: Option<u64>,
    pub notes: NotesView,
    pub enabled: Option<bool>,
    pub channel: Option<Seq<char>>,
    pub channel_bandwidth: Option<u32>,
    pub threshold: Option<u64>,
    pub squelch: Option<u64>,
}

impl View for Freq {
    type V = FreqView;

    open spec fn view(&self) -> FreqView {
        FreqView {
            freq_hertz: self.freq_hertz,
            notes: self.notes@,
            enabled: self.enabled,
            channel: opt_text(self.channel),
            channel_bandwidth: self.channel_bandwidth.hertz,
            threshold: self.threshold.decibel,
            squelch: self.squelch.decibel,
        }
    }
}

/// The entry with nothing set.
pub open spec fn empty_freq() -> FreqView {
    FreqView {
        freq_hertz: None,
        notes: NotesView { uti: None, station: None, language: None, location: None },
        enabled: None,
        channel: None,
        channel_bandwidth: None,
        threshold: None,
        squelch: None,
    }
}

impl Freq {
    /// An entry with nothing set.
    pub fn new() -> (f: Freq)
        ensures
            f@ == empty_freq(),
    {
        Freq {
            freq_hertz: None,
            notes: Notes::new(),
            enabled: None,
            channel: None,
            channel_bandwidth: ChannelBandwidth { hertz: None },
            threshold: Threshold { decibel: None },
            squelch: Squelch { decibel: None },
        }
    }

    /// Sets `dst` to `value` where it is unset; fails with `AlreadyDefined`, leaving it as it
    /// is, where it is set.
    pub fn set_value<T>(dst: &mut Option<T>, value: T) -> (r: Result<(), ParseFreqsError>)
        ensures
            (*old(dst)) is None ==> r is Ok && *final(dst) == Some(value),
            (*old(dst)) is Some ==> (r matches Err(e) && e@ == ParseFreqsFault::AlreadyDefined)
                && *final(dst) == *old(dst),
    {
        match dst {
            Some(_) => Err(ParseFreqsError::AlreadyDefined),
            None => {
                *dst = Some(value);
                Ok(())
            },
        }
    }
}

// ---------------------------------------------------------------------------
// Order
// ---------------------------------------------------------------------------

/// How two unsigned integers compare.
pub open spec fn u64_order(a: u64, b: u64) -> Ordering {
    if a < b {
        Ordering::Less
    } else if a == b {
        Ordering::Equal
    } else {
        Ordering::Greater
    }
}

/// How two `u32` compare.
pub open spec fn u32_order(a: u32, b: u32) -> Ordering {
    if a < b {
        Ordering::Less
    } else if a == b {
        Ordering::Equal
    } else {
        Ordering::Greater
    }
}

/// How two `bool` compare: `false` before `true`.
pub open spec fn bool_order(a: bool, b: bool) -> Ordering {
    if a == b {
        Ordering::Equal
    } else if !a {
        Ordering::Less
    } else {
        Ordering::Greater
    }
}

/// How two texts compare: character by character, a proper prefix first, as `str`'s order.
pub open spec fn text_order(a: Seq<char>, b: Seq<char>) -> Ordering {
    if a == b {
        Ordering::Equal
    } else if text_less(a, b) {
        Ordering::Less
    } else {
        Ordering::Greater
    }
}

/// How two optional frequencies compare: nothing first.
pub open spec fn opt_u64_order(a: Option<u64>, b: Option<u64>) -> Ordering {
    match (a, b) {
        (None, None) => Ordering::Equal,
        (None, Some(_)) => Ordering::Less,
        (Some(_), None) => Ordering::Greater,
        (Some(x), Some(y)) => u64_order(x, y),
    }
}

/// How two optional bandwidths compare: nothing first.
pub open spec fn opt_u32_order(a: Option<u32>, b: Option<u32>) -> Ordering {
    match (a, b) {
        (None, None) => Ordering::Equal,
        (None, Some(_)) => Ordering::Less,
        (Some(_), None) => Ordering::Greater,
        (Some(x), Some(y)) => u32_order(x, y),
    }
}

/// How two optional flags compare: nothing first.
pub open spec fn opt_bool_order(a: Option<bool>, b: Option<bool>) -> Ordering {
    match (a, b) {
        (None, None) => Ordering::Equal,
        (None, Some(_)) => Ordering::Less,
        (Some(_), None) => Ordering::Greater,
        (Some(x), Some(y)) => bool_order(x, y),
    }
}

/// How two optional texts compare: nothing first.
pub open spec fn opt_text_order(a: Option<Seq<char>>, b: Option<Seq<char>>) -> Ordering {
    match (a, b) {
        (None, None) => Ordering::Equal,
        (None, Some(_)) => Ordering::Less,
        (Some(_), None) => Ordering::Greater,
        (Some(x), Some(y)) => text_order(x, y),
    }
}

/// How two optional levels compare: nothing first, two levels as their numbers, nothing at
/// all where a NaN is met.
pub open spec fn opt_level_order(a: Option<u64>, b: Option<u64>) -> Option<Ordering> {
    match (a, b) {
        (None, None) => Some(Ordering::Equal),
        (None, Some(_)) => Some(Ordering::Less),
        (Some(_), None) => Some(Ordering::Greater),
        (Some(x), Some(y)) => level_order(x, y),
    }
}

/// How two entries compare, field by field in the order frequency, notes (by their text),
/// enabled, channel, bandwidth, threshold and squelch; nothing where the first field that
/// decides holds a NaN.
pub open spec fn freq_order(a: FreqView, b: FreqView) -> Option<Ordering> {
    let c1 = opt_u64_order(a.freq_hertz, b.freq_hertz);
    let c2 = text_order(notes_text(a.notes), notes_text(b.notes));
    let c3 = opt_bool_order(a.enabled, b.enabled);
    let c4 = opt_text_order(a.channel, b.channel);
    let c5 = opt_u32_order(a.channel_bandwidth, b.channel_bandwidth);
    let c6 = opt_level_order(a.threshold, b.threshold);
    let c7 = opt_level_order(a.squelch, b.squelch);
    if c1 != Ordering::Equal {
        Some(c1)
    } else if c2 != Ordering::Equal {
        Some(c2)
    } else if c3 != Ordering::Equal {
        Some(c3)
    } else if c4 != Ordering::Equal {
        Some(c4)
    } else if c5 != Ordering::Equal {
        Some(c5)
    } else if c6 != Some(Ordering::Equal) {
        c6
    } else {
        c7
    }
}

/// Whether `a` sorts before `b`.
pub open spec fn freq_less(a: FreqView, b: FreqView) -> bool {
    freq_order(a, b) == Some(Ordering::Less)
}

/// The opposite of `c`.
pub open spec fn flip(c: Ordering) -> Ordering {
    match c {
        Ordering::Less => Ordering::Greater,
        Ordering::Equal => Ordering::Equal,
        Ordering::Greater => Ordering::Less,
    }
}

/// Whether the levels of `f` compare with every level, that is, none is a NaN.
pub open spec fn levels_comparable(f: FreqView) -> bool {
    &&& f.threshold matches Some(t) ==> !level_is_nan(t)
    &&& f.squelch matches Some(q) ==> !level_is_nan(q)
}

proof fn lemma_text_order_laws(a: Seq<char>, b: Seq<char>, c: Seq<char>)
    ensures
        text_order(a, b) == flip(text_order(b, a)),
        text_order(a, b) != Ordering::Greater && text_order(b, c) != Ordering::Greater
            ==> text_order(a, c) != Ordering::Greater,
{
    lemma_text_less_order(a, b, c);
}

proof fn lemma_opt_text_order_laws(a: Option<Seq<char>>, b: Option<Seq<char>>, c: Option<Seq<char>>)
    ensures
        opt_text_order(a, b) == flip(opt_text_order(b, a)),
        opt_text_order(a, b) != Ordering::Greater && opt_text_order(b, c) != Ordering::Greater
            ==> opt_text_order(a, c) != Ordering::Greater,
{
    match (a, b, c) {
        (Some(x), Some(y), Some(z)) => lemma_text_order_laws(x, y, z),
        (Some(x), Some(y), None) => lemma_text_order_laws(x, y, y),
        _ => {},
    }
}

proof fn lemma_opt_level_order_laws(a: Option<u64>, b: Option<u64>, c: Option<u64>)
    requires
        a matches Some(x) ==> !level_is_nan(x),
        b matches Some(x) ==> !level_is_nan(x),
        c matches Some(x) ==> !level_is_nan(x),
    ensures
        opt_level_order(a, b) matches Some(o) && opt_level_order(b, a) == Some(flip(o)),
        opt_level_order(a, b) != Some(Ordering::Greater) && opt_level_order(b, c) != Some(
            Ordering::Greater,
        ) ==> opt_level_order(a, c) != Some(Ordering::Greater),
{
}

/// Among entries whose levels are no NaN, [`freq_order`] always answers, answers the
/// opposite way round the other way, and its "not after" is transitive.
pub proof fn lemma_freq_order_laws(a: FreqView, b: FreqView, c: FreqView)
    requires
        levels_comparable(a),
        levels_comparable(b),
        levels_comparable(c),
    ensures
        freq_order(a, b) matches Some(o) && freq_order(b, a) == Some(flip(o)),
        freq_order(a, b) != Some(Ordering::Greater) && freq_order(b, c) != Some(
            Ordering::Greater,
        ) ==> freq_order(a, c) != Some(Ordering::Greater),
{
    lemma_text_order_laws(notes_text(a.notes), notes_text(b.notes), notes_text(c.notes));
    lemma_opt_text_order_laws(a.channel, b.channel, c.channel);
    lemma_opt_level_order_laws(a.threshold, b.threshold, c.threshold);
    lemma_opt_level_order_laws(a.squelch, b.squelch, c.squelch);
}

/// Compares two texts.
pub fn compare_text(a: &Vec<char>, b: &Vec<char>) -> (r: Ordering)
    ensures
        r == text_order(a@, b@),
{
    if chars_equal(a, b) {
        Ordering::Equal
    } else if chars_less(a, b) {
        Ordering::Less
    } else {
        Ordering::Greater
    }
}

/// Compares two optional frequencies.
fn compare_opt_u64(a: Option<u64>, b: Option<u64>) -> (r: Ordering)
    ensures
        r == opt_u64_order(a, b),
{
    match (a, b) {
        (None, None) => Ordering::Equal,
        (None, Some(_)) => Ordering::Less,
        (Some(_), None) => Ordering::Greater,
        (Some(x), Some(y)) => if x < y {
            Ordering::Less
        } else if x == y {
            Ordering::Equal
        } else {
            Ordering::Greater
        },
    }
}

/// Compares two optional bandwidths.
fn compare_opt_u32(a: Option<u32>, b: Option<u32>) -> (r: Ordering)
    ensures
        r == opt_u32_order(a, b),
{
    match (a, b) {
        (None, None) => Ordering::Equal,
        (None, Some(_)) => Ordering::Less,
        (Some(_), None) => Ordering::Greater,
        (Some(x), Some(y)) => if x < y {
            Ordering::Less
        } else if x == y {
            Ordering::Equal
        } else {
            Ordering::Greater
        },
    }
}

/// Compares two optional flags.
fn compare_opt_bool(a: Option<bool>, b: Option<bool>) -> (r: Ordering)
    ensures
        r == opt_bool_order(a, b),
{
    match (a, b) {
        (None, None) => Ordering::Equal,
        (None, Some(_)) => Ordering::Less,
        (Some(_), None) => Ordering::Greater,
        (Some(x), Some(y)) => if x == y {
            Ordering::Equal
        } else if !x {
            Ordering::Less
        } else {
            Ordering::Greater
        },
    }
}

/// Compares two optional texts.
fn compare_opt_text(a: &Option<String>, b: &Option<String>) -> (r: Ordering)
    ensures
        r == opt_text_order(opt_text(*a), opt_text(*b)),
{
    match (a, b) {
        (None, None) => Ordering::Equal,
        (None, Some(_)) => Ordering::Less,
        (Some(_), None) => Ordering::Greater,
        (Some(x), Some(y)) => {
            let xs = chars_of(x.as_str());
            let ys = chars_of(y.as_str());
            compare_text(&xs, &ys)
        },
    }
}

/// Compares two optional levels.
fn compare_opt_level(a: Option<u64>, b: Option<u64>) -> (r: Option<Ordering>)
    ensures
        r == opt_level_order(a, b),
{
    match (a, b) {
        (None, None) => Some(Ordering::Equal),
        (None, Some(_)) => Some(Ordering::Less),
        (Some(_), None) => Some(Ordering::Greater),
        (Some(x), Some(y)) => compare_levels(x, y),
    }
}

/// Notes are equal where their texts are.
impl PartialEq for Notes {
    fn eq(&self, other: &Notes) -> (r: bool) {
        let a = self.text();
        let b = other.text();
        chars_equal(&a, &b)
    }
}

impl PartialEqSpecImpl for Notes {
    open spec fn obeys_eq_spec() -> bool {
        true
    }

    open spec fn eq_spec(&self, other: &Notes) -> bool {
        notes_text(self@) == notes_text(other@)
    }
}

/// Notes are ordered by their texts.
impl PartialOrd for Notes {
    fn partial_cmp(&self, other: &Notes) -> (r: Option<Ordering>) {
        let a = self.text();
        let b = other.text();
        Some(compare_text(&a, &b))
    }
}

impl PartialOrdSpecImpl for Notes {
    open spec fn obeys_partial_cmp_spec() -> bool {
        true
    }

    open spec fn partial_cmp_spec(&self, other: &Notes) -> Option<Ordering> {
        Some(text_order(notes_text(self@), notes_text(other@)))
    }
}

impl Freq {
    /// How this entry compares with `other`; see [`freq_order`].
    pub fn partial_cmp(&self, other: &Freq) -> (r: Option<Ordering>)
        ensures
            r == freq_order(self@, other@),
    {
        let c1 = compare_opt_u64(self.freq_hertz, other.freq_hertz);
        match c1 {
            Ordering::Equal => {},
            _ => return Some(c1),
        }
        let c2 = match self.notes.partial_cmp(&other.notes) {
            Some(c) => c,
            None => Ordering::Equal,
        };
        match c2 {
            Ordering::Equal => {},
            _ => return Some(c2),
        }
        let c3 = compare_opt_bool(self.enabled, other.enabled);
        match c3 {
            Ordering::Equal => {},
            _ => return Some(c3),
        }
        let c4 = compare_opt_text(&self.channel, &other.channel);
        match c4 {
            Ordering::Equal => {},
            _ => return Some(c4),
        }
        let c5 = compare_opt_u32(self.channel_bandwidth.hertz, other.channel_bandwidth.hertz);
        match c5 {
            Ordering::Equal => {},
            _ => return Some(c5),
        }
        let c6 = compare_opt_level(self.threshold.decibel, other.threshold.decibel);
        match c6 {
            Some(Ordering::Equal) => {},
            _ => return c6,
        }
        compare_opt_level(self.squelch.decibel, other.squelch.decibel)
    }

    /// How this entry compares with `other`, with a comparison that fails counting as equal.
    pub fn cmp(&self, other: &Freq) -> (r: Ordering)
        ensures
            r == match freq_order(self@, other@) {
                Some(c) => c,
                None => Ordering::Equal,
            },
    {
        match self.partial_cmp(other) {
            Some(c) => c,
            None => Ordering::Equal,
        }
    }

    /// Whether this entry sorts before `other`.
    pub fn lt(&self, other: &Freq) -> (r: bool)
        ensures
            r == freq_less(self@, other@),
    {
        match self.partial_cmp(other) {
            Some(Ordering::Less) => true,
            _ => false,
        }
    }
}


// ---------------------------------------------------------------------------
// Merging
// ---------------------------------------------------------------------------

/// The key under which entries count as the same station: the notes' text with commas and
/// double quotes made underscores, trimmed.
pub open spec fn notes_key(n: NotesView) -> Seq<char> {
    trim(clean(notes_text(n)))
}

/// Whether `a` and `b` are the same station on the same frequency.
pub open spec fn same_entry(a: FreqView, b: FreqView) -> bool {
    a.freq_hertz == b.freq_hertz && notes_key(a.notes) == notes_key(b.notes)
}

/// The characters of the key of `n`.
pub fn notes_key_of(n: &Notes) -> (v: Vec<char>)
    ensures
        v@ == notes_key(n@),
{
    let t = n.text();
    let mut c: Vec<char> = Vec::new();
    push_clean(&mut c, &t);
    let (lo, hi) = trim_range(&c, 0, c.len());
    assert(c@.subrange(0, c@.len() as int) =~= c@);
    let mut out: Vec<char> = Vec::new();
    let mut i = lo;
    while i < hi
        invariant
            lo <= i <= hi <= c.len(),
            out@ == c@.subrange(lo as int, i as int),
        decreases hi - i,
    {
        out.push(c[i]);
        i += 1;
    }
    out
}

/// Whether `a` and `b` are the same station on the same frequency.
pub fn is_same_entry(a: &Freq, b: &Freq) -> (r: bool)
    ensures
        r == same_entry(a@, b@),
{
    if a.freq_hertz != b.freq_hertz {
        return false;
    }
    let ka = notes_key_of(&a.notes);
    let kb = notes_key_of(&b.notes);
    chars_equal(&ka, &kb)
}

/// The level that `mid` names for each two levels, as a spec function.
pub open spec fn mid_of<M: Fn(u64, u64) -> u64>(m: M) -> spec_fn(u64, u64) -> u64 {
    |x: u64, y: u64| midpoint_level(m, x, y)
}

/// Two enable flags merged: both set gives their disjunction, else whichever is set.
pub open spec fn merge_flag(b: Option<bool>, a: Option<bool>) -> Option<bool> {
    match (b, a) {
        (Some(x), Some(y)) => Some(x || y),
        (None, o) => o,
        (o, None) => o,
    }
}

/// Two channels merged: the later one where it is set, else the earlier.
pub open spec fn merge_channel(b: Option<Seq<char>>, a: Option<Seq<char>>) -> Option<Seq<char>> {
    if a is None {
        b
    } else {
        a
    }
}

/// Two bandwidths merged: both set gives their midpoint rounded down, else whichever is set.
pub open spec fn merge_hertz(b: Option<u32>, a: Option<u32>) -> Option<u32> {
    match (b, a) {
        (Some(x), Some(y)) => Some(((x + y) / 2) as u32),
        (None, o) => o,
        (o, None) => o,
    }
}

/// Two levels merged: a level that is no finite number gives way to the other; two finite
/// levels give their midpoint by `mid`; else whichever is set.
pub open spec fn merge_level(b: Option<u64>, a: Option<u64>, mid: spec_fn(u64, u64) -> u64) -> Option<
    u64,
> {
    if b matches Some(x) && !level_is_finite(x) {
        a
    } else if a matches Some(y) && !level_is_finite(y) {
        b
    } else {
        match (b, a) {
            (Some(x), Some(y)) => Some(mid(x, y)),
            (None, o) => o,
            (o, None) => o,
        }
    }
}

/// The entry kept `b` after the later entry `a` of the same station is merged into it: the
/// frequency of `b`, the notes whose text sorts later (`b`'s on a tie), and the other fields
/// merged as above.
pub open spec fn merge_freq(b: FreqView, a: FreqView, mid: spec_fn(u64, u64) -> u64) -> FreqView {
    FreqView {
        freq_hertz: b.freq_hertz,
        notes: if text_order(notes_text(a.notes), notes_text(b.notes)) == Ordering::Greater {
            a.notes
        } else {
            b.notes
        },
        enabled: merge_flag(b.enabled, a.enabled),
        channel: merge_channel(b.channel, a.channel),
        channel_bandwidth: merge_hertz(b.channel_bandwidth, a.channel_bandwidth),
        threshold: merge_level(b.threshold, a.threshold, mid),
        squelch: merge_level(b.squelch, a.squelch, mid),
    }
}

/// Merges two bandwidths.
fn merge_bandwidths(b: Option<u32>, a: Option<u32>) -> (r: Option<u32>)
    ensures
        r == merge_hertz(b, a),
{
    match (b, a) {
        (Some(x), Some(y)) => Some(((x as u64 + y as u64) / 2) as u32),
        (None, o) => o,
        (o, None) => o,
    }
}

/// Merges two levels, with `midpoint` for two finite ones.
pub fn merge_levels<M: Fn(u64, u64) -> u64>(b: Option<u64>, a: Option<u64>, midpoint: &M) -> (r:
    Option<u64>)
    requires
        averages_levels(*midpoint),
    ensures
        r == merge_level(b, a, mid_of(*midpoint)),
{
    if let Some(x) = b {
        if !level_finite(x) {
            return a;
        }
    }
    if let Some(y) = a {
        if !level_finite(y) {
            return b;
        }
    }
    match (b, a) {
        (Some(x), Some(y)) => {
            let m = midpoint(x, y);
            proof {
                lemma_midpoint_level(*midpoint, x, y, m);
            }
            Some(m)
        },
        (None, o) => o,
        (o, None) => o,
    }
}

impl Freq {
    /// Merges the later entry `a` of the same station into the kept entry `b`.
    pub fn merged<M: Fn(u64, u64) -> u64>(b: Freq, a: Freq, midpoint: &M) -> (r: Freq)
        requires
            averages_levels(*midpoint),
        ensures
            r@ == merge_freq(b@, a@, mid_of(*midpoint)),
    {
        let later = match a.notes.partial_cmp(&b.notes) {
            Some(Ordering::Greater) => true,
            _ => false,
        };
        let notes = if later {
            a.notes
        } else {
            b.notes
        };
        let enabled = match (b.enabled, a.enabled) {
            (Some(x), Some(y)) => Some(x || y),
            (None, o) => o,
            (o, None) => o,
        };
        let channel = match a.channel {
            None => b.channel,
            Some(c) => Some(c),
        };
        let hertz = merge_bandwidths(b.channel_bandwidth.hertz, a.channel_bandwidth.hertz);
        let threshold = merge_levels(b.threshold.decibel, a.threshold.decibel, midpoint);
        let squelch = merge_levels(b.squelch.decibel, a.squelch.decibel, midpoint);
        Freq {
            freq_hertz: b.freq_hertz,
            notes,
            enabled,
            channel,
            channel_bandwidth: ChannelBandwidth { hertz },
            threshold: Threshold { decibel: threshold },
            squelch: Squelch { decibel: squelch },
        }
    }
}


/// What merging the later entry `a` into the kept entry `b` does to each field: the
/// frequency is `b`'s; the entry is enabled where either was, unset only where both were,
/// and the same whichever way round; the channel is `a`'s where set, else `b`'s; two
/// bandwidths give one between them; the notes are those of one of the two, whose text sorts
/// no earlier than the other's. Merging an entry with a copy of itself keeps every field but
/// the levels.
pub proof fn lemma_merge_fields(b: FreqView, a: FreqView, mid: spec_fn(u64, u64) -> u64)
    ensures
        merge_freq(b, a, mid).freq_hertz == b.freq_hertz,
        merge_freq(b, a, mid).enabled == Some(true) <==> (b.enabled == Some(true) || a.enabled
            == Some(true)),
        merge_freq(b, a, mid).enabled is None <==> (b.enabled is None && a.enabled is None),
        merge_freq(b, a, mid).enabled == merge_freq(a, b, mid).enabled,
        a.channel is Some ==> merge_freq(b, a, mid).channel == a.channel,
        a.channel is None ==> merge_freq(b, a, mid).channel == b.channel,
        b.channel_bandwidth is Some && a.channel_bandwidth is Some ==> ({
            let x = b.channel_bandwidth->0;
            let y = a.channel_bandwidth->0;
            &&& merge_freq(b, a, mid).channel_bandwidth is Some
            &&& {
                let z = merge_freq(b, a, mid).channel_bandwidth->0;
                x <= z <= y || y <= z <= x
            }
        }),
        b.channel_bandwidth is None ==> merge_freq(b, a, mid).channel_bandwidth
            == a.channel_bandwidth,
        a.channel_bandwidth is None ==> merge_freq(b, a, mid).channel_bandwidth
            == b.channel_bandwidth,
        merge_freq(b, a, mid).notes == a.notes || merge_freq(b, a, mid).notes == b.notes,
        text_order(notes_text(merge_freq(b, a, mid).notes), notes_text(a.notes))
            != Ordering::Less,
        text_order(notes_text(merge_freq(b, a, mid).notes), notes_text(b.notes))
            != Ordering::Less,
        ({
            let m = merge_freq(b, b, mid);
            &&& m.freq_hertz == b.freq_hertz
            &&& m.notes == b.notes
            &&& m.enabled == b.enabled
            &&& m.channel == b.channel
            &&& m.channel_bandwidth == b.channel_bandwidth
        }),
{
    let ta = notes_text(a.notes);
    let tb = notes_text(b.notes);
    lemma_text_order_laws(ta, tb, ta);
    lemma_text_order_laws(tb, ta, tb);
}

} // verus!
