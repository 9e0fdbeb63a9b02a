//! A frequency list: sorting, merging duplicate stations, and merging lists.

use vstd::prelude::*;

use core::cmp::Ordering;

use crate::freq::{freq_order, notes_text, opt_u64_order, text_order, notes_key, lemma_freq_order_laws, levels_comparable, freq_less, merge_freq, mid_of, same_entry, Freq, FreqView, is_same_entry};
use crate::error::{ParseFreqsError, ParseFreqsFault};
use crate::level::{averages_levels, reads_levels, writes_levels};
use crate::perseus::{perseus_accepts, perseus_readable, read_perseus, read_perseus_at, Clock, Reading};
use crate::text::{lemma_text_less_order, text_less};
use crate::sdrangel::{read_sdrangel, read_sdrangel_text, write_sdrangel, write_sdrangel_text};

verus! {

/// The formats a frequency list comes in.
#[derive(Debug, Clone, Copy, PartialEq, Eq, Structural)]
pub enum FileType {
    /// An SDRangel frequency table: comma-separated columns under a header line.
    SdrAngelCsv,
    /// A Perseus user list: columns laid out under a ruler line of `-` and `+`.
    PerseusTxt,
}

/// A frequency list and the format it is kept in.
pub struct Freqs {
    pub file_type: FileType,
    pub freqs: Vec<Freq>,
}

/// The views of a sequence of entries.
pub open spec fn views(v: Seq<Freq>) -> Seq<FreqView> {
    v.map_values(|f: Freq| f@)
}

/// [`Freqs`] with its entries as views.
pub struct FreqsView {
    pub file_type: FileType,
    pub freqs: Seq<FreqView>,
}

impl View for Freqs {
    type V = FreqsView;

    open spec fn view(&self) -> FreqsView {
        FreqsView { file_type: self.file_type, freqs: views(self.freqs@) }
    }
}

/// The file type a path with the extension `ext` is kept in: SDRangel for no extension and
/// for `csv`, none for any other.
pub open spec fn file_type_of(ext: Option<Seq<char>>) -> Option<FileType> {
    match ext {
        None => Some(FileType::SdrAngelCsv),
        Some(e) => if e == seq!['c', 's', 'v'] {
            Some(FileType::SdrAngelCsv)
        } else {
            None
        },
    }
}

impl FileType {
    /// The file type of a path with the extension `ext`; `None` where it is unrecognized.
    pub fn from_extension(ext: Option<&str>) -> (r: Option<FileType>)
        ensures
            r == file_type_of(
                match ext {
                    Some(e) => Some(e@),
                    None => None,
                },
            ),
    {
        match ext {
            None => Some(FileType::SdrAngelCsv),
            Some(e) => {
                let v = crate::text::chars_of(e);
                let csv = vec!['c', 's', 'v'];
                assert(csv@ =~= seq!['c', 's', 'v']);
                if crate::text::chars_equal(&v, &csv) {
                    Some(FileType::SdrAngelCsv)
                } else {
                    None
                }
            },
        }
    }
}

/// What reading `text` as `file_type` at the moment `clock` gives: the entries or why the
/// text does not read. Levels are read by `parse`.
pub open spec fn read_spec<P: Fn(String) -> Option<u64>>(
    text: Seq<char>,
    file_type: FileType,
    clock: Clock,
    parse: P,
) -> Result<Seq<FreqView>, ParseFreqsFault> {
    match file_type {
        FileType::SdrAngelCsv => read_sdrangel(text, parse),
        FileType::PerseusTxt => match read_perseus(text, clock) {
            Reading::Done(fs) => Ok(fs),
            Reading::Failed(e) => Err(e),
            Reading::Stuck => Err(ParseFreqsFault::ExpectedCsvHeader),
        },
    }
}

/// Whether `text` can be read as `file_type` at the moment `clock`.
pub open spec fn readable(text: Seq<char>, file_type: FileType, clock: Clock) -> bool {
    file_type == FileType::PerseusTxt ==> perseus_accepts(text, clock)
}

/// Whether `r` is what reading `text` as `file_type` at the moment `clock` (a day from 1 to
/// 7 and a time of day) gives: `None` where the text cannot be read then.
pub open spec fn read_outcome<P: Fn(String) -> Option<u64>>(
    text: Seq<char>,
    file_type: FileType,
    clock: Clock,
    parse: P,
    r: Option<Result<Freqs, ParseFreqsError>>,
) -> bool {
    &&& 1 <= clock.weekday <= 7
    &&& clock.time_of_day < 2400
    &&& match r {
        None => !readable(text, file_type, clock),
        Some(Ok(fs)) => fs@.file_type == file_type && read_spec(text, file_type, clock, parse)
            == Ok::<Seq<FreqView>, ParseFreqsFault>(fs@.freqs),
        Some(Err(e)) => read_spec(text, file_type, clock, parse) == Err::<
            Seq<FreqView>,
            ParseFreqsFault,
        >(e@),
    }
}

impl Freqs {
    /// Reads a frequency list of type `file_type` from `text`, at the moment `clock` (which
    /// the time and day filters of a Perseus list are held against); `parse_level` reads
    /// the levels of an SDRangel table.
    pub fn read_at<P: Fn(String) -> Option<u64>>(
        text: &str,
        file_type: FileType,
        clock: Clock,
        parse_level: P,
    ) -> (r: Result<Freqs, ParseFreqsError>)
        requires
            reads_levels(parse_level),
            readable(text@, file_type, clock),
        ensures
            match r {
                Ok(fs) => fs@.file_type == file_type && read_spec(
                    text@,
                    file_type,
                    clock,
                    parse_level,
                ) == Ok::<Seq<FreqView>, ParseFreqsFault>(fs@.freqs),
                Err(e) => read_spec(text@, file_type, clock, parse_level) == Err::<
                    Seq<FreqView>,
                    ParseFreqsFault,
                >(e@),
            },
    {
        let freqs = match file_type {
            FileType::SdrAngelCsv => read_sdrangel_text(text, &parse_level),
            FileType::PerseusTxt => read_perseus_at(text, clock),
        };
        match freqs {
            Ok(freqs) => Ok(Freqs { file_type, freqs }),
            Err(e) => Err(e),
        }
    }

    /// Reads a frequency list of type `file_type` from `text` as it stands now by the system
    /// clock; `None` only where reading a Perseus list gets stuck then (a cut inside a
    /// character of more than one byte, a column beyond its header, a frequency too large
    /// in hertz; see [`perseus_accepts`]).
    pub fn read<P: Fn(String) -> Option<u64>>(text: &str, file_type: FileType, parse_level: P) -> (r:
        Option<Result<Freqs, ParseFreqsError>>)
        requires
            reads_levels(parse_level),
        ensures
            exists|clock: Clock| #[trigger] read_outcome(text@, file_type, clock, parse_level, r),
    {
        let clock = Clock::now();
        match file_type {
            FileType::PerseusTxt => {
                if !perseus_readable(text, clock) {
                    assert(read_outcome(text@, file_type, clock, parse_level, None));
                    return None;
                }
            },
            FileType::SdrAngelCsv => {},
        }
        let r = Self::read_at(text, file_type, clock, parse_level);
        assert(read_outcome(text@, file_type, clock, parse_level, Some(r)));
        Some(r)
    }

    /// The text of this list as an SDRangel table; `format_level` writes the levels.
    pub fn write<F: Fn(u64) -> String>(&self, format_level: F) -> (s: String)
        requires
            self.file_type == FileType::SdrAngelCsv,
            writes_levels(format_level),
        ensures
            s@ == write_sdrangel(self@.freqs, format_level),
    {
        write_sdrangel_text(&self.freqs, &format_level)
    }
}

// ---------------------------------------------------------------------------
// Sorting
// ---------------------------------------------------------------------------

/// `x` put into `s` after the last entry that `x` does not sort before.
pub open spec fn insert_sorted(s: Seq<FreqView>, x: FreqView) -> Seq<FreqView>
    decreases s.len(),
{
    if s.len() == 0 {
        seq![x]
    } else if freq_less(x, s.last()) {
        insert_sorted(s.drop_last(), x).push(s.last())
    } else {
        s.push(x)
    }
}

/// The entries of `s` in stable sorted order: each entry in turn put after the last
/// earlier-sorted entry it does not sort before.
pub open spec fn sort_freqs(s: Seq<FreqView>) -> Seq<FreqView>
    decreases s.len(),
{
    if s.len() == 0 {
        s
    } else {
        insert_sorted(sort_freqs(s.drop_last()), s.last())
    }
}

proof fn lemma_insert_sorted_at(s: Seq<FreqView>, x: FreqView, j: int)
    requires
        0 <= j <= s.len(),
        j == 0 || !freq_less(x, s[j - 1]),
        forall|k: int| j <= k < s.len() ==> freq_less(x, #[trigger] s[k]),
    ensures
        insert_sorted(s, x) == s.take(j).push(x) + s.skip(j),
    decreases s.len(),
{
    if s.len() == j {
        assert(s.take(j) =~= s);
        assert(s.skip(j) =~= Seq::<FreqView>::empty());
        if s.len() > 0 {
            assert(s.last() == s[j - 1]);
        }
        assert(s.take(j).push(x) + s.skip(j) =~= s.push(x));
    } else {
        assert(freq_less(x, s[s.len() - 1]));
        let t = s.drop_last();
        assert forall|k: int| j <= k < t.len() implies freq_less(x, #[trigger] t[k]) by {
            assert(t[k] == s[k]);
        }
        if j > 0 {
            assert(t[j - 1] == s[j - 1]);
        }
        lemma_insert_sorted_at(t, x, j);
        assert(t.take(j) =~= s.take(j));
        assert((t.take(j).push(x) + t.skip(j)).push(s.last()) =~= s.take(j).push(x) + s.skip(j));
    }
}

/// Sorts `v` stably by [`freq_less`].
fn sort_entries(v: &mut Vec<Freq>)
    ensures
        views(final(v)@) == sort_freqs(views(old(v)@)),
{
    let ghost orig = views(v@);
    let n = v.len();
    let mut i: usize = 0;
    assert(orig.take(0) =~= Seq::<FreqView>::empty());
    assert(views(v@).skip(0) =~= orig);
    while i < n
        invariant
            n == v.len(),
            i <= n,
            orig.len() == n,
            orig == views(old(v)@),
            views(v@).take(i as int) == sort_freqs(orig.take(i as int)),
            views(v@).skip(i as int) == orig.skip(i as int),
        decreases n - i,
    {
        let ghost before = v@;
        let x = v.remove(i);
        let ghost s = views(v@).take(i as int);
        proof {
            assert(s =~= views(before).take(i as int));
            assert(x@ == orig[i as int]) by {
                assert(views(before).skip(i as int)[0] == views(before)[i as int]);
            }
        }
        let mut j = i;
        while j > 0 && x.lt(&v[j - 1])
            invariant
                j <= i < n,
                v.len() == n - 1,
                s == views(v@).take(i as int),
                forall|k: int| j <= k < i ==> freq_less(x@, #[trigger] s[k]),
            decreases j,
        {
            assert(s[j - 1] == v@[j - 1]@);
            j -= 1;
        }
        proof {
            if j > 0 {
                assert(s[j - 1] == v@[j - 1]@);
            }
            lemma_insert_sorted_at(s, x@, j as int);
        }
        let ghost mid = v@;
        v.insert(j, x);
        proof {
            let t = orig.take(i + 1);
            assert(t.drop_last() =~= orig.take(i as int));
            assert(t.last() == orig[i as int]);
            assert(views(v@).take(i + 1) =~= s.take(j as int).push(x@) + s.skip(j as int));
            assert forall|k: int| 0 <= k < n - i - 1 implies #[trigger] views(v@).skip(i + 1)[k]
                == orig.skip(i + 1)[k] by {
                assert(v@[i + 1 + k] == mid[i + k]);
                assert(mid[i + k] == before[i + 1 + k]);
                assert(views(before).skip(i as int)[k + 1] == orig.skip(i as int)[k + 1]);
            }
            assert(views(v@).skip(i + 1) =~= orig.skip(i + 1));
        }
        i += 1;
    }
    assert(views(v@).take(n as int) =~= views(v@));
    assert(orig.take(n as int) =~= orig);
}

impl Freqs {
    /// Sorts the entries stably by [`freq_less`].
    pub fn sort(&mut self)
        ensures
            final(self)@.file_type == old(self)@.file_type,
            final(self)@.freqs == sort_freqs(old(self)@.freqs),
    {
        sort_entries(&mut self.freqs);
    }
}


// ---------------------------------------------------------------------------
// Merging duplicates
// ---------------------------------------------------------------------------

/// The entries of `s` with each entry of the same station as the entry kept before it
/// merged into that one, and each later entry without a frequency dropped: what
/// `Vec::dedup_by` leaves, run over `s` with the merge of [`merge_freq`].
pub open spec fn dedup_sorted(s: Seq<FreqView>, mid: spec_fn(u64, u64) -> u64) -> Seq<FreqView>
    decreases s.len(),
{
    if s.len() <= 1 {
        s
    } else {
        let d = dedup_sorted(s.drop_last(), mid);
        let a = s.last();
        if a.freq_hertz is None {
            d
        } else if same_entry(a, d.last()) {
            d.drop_last().push(merge_freq(d.last(), a, mid))
        } else {
            d.push(a)
        }
    }
}

/// `v` reversed.
fn reversed(v: Vec<Freq>) -> (r: Vec<Freq>)
    ensures
        r@.len() == v@.len(),
        forall|i: int| 0 <= i < v@.len() ==> #[trigger] r@[i] == v@[v@.len() - 1 - i],
{
    let ghost orig = v@;
    let n = v.len();
    let mut v = v;
    let mut r: Vec<Freq> = Vec::new();
    while v.len() > 0
        invariant
            orig.len() == n,
            v@ == orig.take(v@.len() as int),
            r@.len() + v@.len() == n,
            forall|i: int| 0 <= i < r@.len() ==> #[trigger] r@[i] == orig[n - 1 - i],
        decreases v.len(),
    {
        let ghost before = v@;
        match v.pop() {
            Some(x) => {
                r.push(x);
                assert(v@ =~= orig.take(v@.len() as int));
            },
            None => {},
        }
    }
    r
}

/// Merges duplicate stations in the sorted entries `v`; see [`dedup_sorted`].
fn dedup_entries<M: Fn(u64, u64) -> u64>(v: Vec<Freq>, midpoint: &M) -> (r: Vec<Freq>)
    requires
        averages_levels(*midpoint),
    ensures
        views(r@) == dedup_sorted(views(v@), mid_of(*midpoint)),
{
    let ghost s = views(v@);
    let ghost mid = mid_of(*midpoint);
    let n = v.len();
    let mut rev = reversed(v);
    let mut out: Vec<Freq> = Vec::new();
    let mut k: usize = 0;
    assert(s.take(0) =~= Seq::<FreqView>::empty());
    while k < n
        invariant
            s.len() == n,
            k <= n,
            rev@.len() == n - k,
            forall|i: int| 0 <= i < rev@.len() ==> #[trigger] rev@[i]@ == s[n - 1 - i],
            views(out@) == dedup_sorted(s.take(k as int), mid),
            k > 0 ==> out@.len() > 0,
            averages_levels(*midpoint),
            mid == mid_of(*midpoint),
        decreases n - k,
    {
        let a = match rev.pop() {
            Some(a) => a,
            None => {
                return out;
            },
        };
        proof {
            let t = s.take(k + 1);
            assert(t.drop_last() =~= s.take(k as int));
            assert(t.last() == s[k as int]);
            assert(a@ == s[k as int]);
        }
        let ghost d = views(out@);
        if out.len() == 0 {
            out.push(a);
            proof {
                assert(views(out@) =~= seq![a@]);
                assert(s.take(1) =~= seq![s[0]]);
            }
        } else if a.freq_hertz.is_none() {
        } else {
            let last = out.len() - 1;
            let same = is_same_entry(&a, &out[last]);
            proof {
                assert(d.last() == out@[last as int]@);
            }
            if same {
                let b = match out.pop() {
                    Some(b) => b,
                    None => {
                        return out;
                    },
                };
                let m = Freq::merged(b, a, midpoint);
                out.push(m);
                proof {
                    assert(views(out@) =~= d.drop_last().push(m@));
                }
            } else {
                out.push(a);
                proof {
                    assert(views(out@) =~= d.push(a@));
                }
            }
        }
        k += 1;
    }
    assert(s.take(n as int) =~= s);
    out
}

impl Freqs {
    /// Sorts the entries, then merges each entry of the same station as the entry kept before
    /// it into that one and drops later entries without a frequency; two finite levels are
    /// merged by `midpoint`.
    pub fn dedup<M: Fn(u64, u64) -> u64>(&mut self, midpoint: M)
        requires
            averages_levels(midpoint),
        ensures
            final(self)@.file_type == old(self)@.file_type,
            final(self)@.freqs == dedup_sorted(sort_freqs(old(self)@.freqs), mid_of(midpoint)),
    {
        self.sort();
        let mut v: Vec<Freq> = Vec::new();
        std::mem::swap(&mut v, &mut self.freqs);
        self.freqs = dedup_entries(v, &midpoint);
    }

    /// Takes the entries of `other` after those of this list, then merges duplicates as
    /// [`Freqs::dedup`] does.
    pub fn merge<M: Fn(u64, u64) -> u64>(&mut self, other: Freqs, midpoint: M)
        requires
            averages_levels(midpoint),
        ensures
            final(self)@.file_type == old(self)@.file_type,
            final(self)@.freqs == dedup_sorted(
                sort_freqs(old(self)@.freqs + other@.freqs),
                mid_of(midpoint),
            ),
    {
        let mut more = other.freqs;
        let ghost a = self.freqs@;
        let ghost b = more@;
        self.freqs.append(&mut more);
        assert(views(self.freqs@) =~= views(a) + views(b));
        self.dedup(midpoint);
    }
}


// ---------------------------------------------------------------------------
// Laws
// ---------------------------------------------------------------------------

proof fn lemma_insert_sorted_multiset(s: Seq<FreqView>, x: FreqView)
    ensures
        insert_sorted(s, x).to_multiset() == s.to_multiset().insert(x),
    decreases s.len(),
{
    broadcast use vstd::seq_lib::group_to_multiset_ensures;
    if s.len() == 0 {
        assert(seq![x] =~= Seq::<FreqView>::empty().push(x));
    } else if freq_less(x, s.last()) {
        lemma_insert_sorted_multiset(s.drop_last(), x);
        assert(s =~= s.drop_last().push(s.last()));
        assert(s.to_multiset() == s.drop_last().to_multiset().insert(s.last()));
        assert(insert_sorted(s.drop_last(), x).push(s.last()).to_multiset() =~= s.to_multiset().insert(x));
    }
}

/// Sorting keeps the entries: the sorted list holds each entry as often as the list did.
pub proof fn lemma_sort_keeps_entries(s: Seq<FreqView>)
    ensures
        sort_freqs(s).to_multiset() == s.to_multiset(),
        sort_freqs(s).len() == s.len(),
    decreases s.len(),
{
    broadcast use vstd::seq_lib::group_to_multiset_ensures;
    if s.len() > 0 {
        lemma_sort_keeps_entries(s.drop_last());
        lemma_insert_sorted_multiset(sort_freqs(s.drop_last()), s.last());
        assert(s =~= s.drop_last().push(s.last()));
        assert(s.to_multiset() == s.drop_last().to_multiset().insert(s.last()));
    }
    assert(sort_freqs(s).len() == sort_freqs(s).to_multiset().len());
    assert(s.len() == s.to_multiset().len());
}


/// Whether no entry of `s` sorts before an entry ahead of it.
pub open spec fn is_sorted(s: Seq<FreqView>) -> bool {
    forall|i: int, j: int| 0 <= i < j < s.len() ==> !freq_less(#[trigger] s[j], #[trigger] s[i])
}

/// Whether no level of any entry of `s` is a NaN.
pub open spec fn all_comparable(s: Seq<FreqView>) -> bool {
    forall|i: int| 0 <= i < s.len() ==> levels_comparable(#[trigger] s[i])
}

proof fn lemma_less_facts(a: FreqView, b: FreqView, c: FreqView)
    requires
        levels_comparable(a),
        levels_comparable(b),
        levels_comparable(c),
    ensures
        freq_less(a, b) ==> !freq_less(b, a),
        !freq_less(a, b) && !freq_less(b, c) ==> !freq_less(a, c),
{
    lemma_freq_order_laws(a, b, c);
    lemma_freq_order_laws(c, b, a);
    lemma_freq_order_laws(b, a, c);
    lemma_freq_order_laws(c, a, b);
}

proof fn lemma_insert_sorted_sorted(s: Seq<FreqView>, x: FreqView)
    requires
        is_sorted(s),
        all_comparable(s),
        levels_comparable(x),
    ensures
        is_sorted(insert_sorted(s, x)),
        all_comparable(insert_sorted(s, x)),
    decreases s.len(),
{
    broadcast use vstd::seq_lib::group_to_multiset_ensures;
    if s.len() == 0 {
    } else if freq_less(x, s.last()) {
        let t = s.drop_last();
        let l = s.last();
        assert(is_sorted(t)) by {
            assert forall|i: int, j: int| 0 <= i < j < t.len() implies !freq_less(
                #[trigger] t[j],
                #[trigger] t[i],
            ) by {
                assert(t[i] == s[i] && t[j] == s[j]);
            }
        }
        assert(all_comparable(t)) by {
            assert forall|i: int| 0 <= i < t.len() implies levels_comparable(#[trigger] t[i]) by {
                assert(t[i] == s[i]);
            }
        }
        lemma_insert_sorted_sorted(t, x);
        lemma_insert_sorted_multiset(t, x);
        let r = insert_sorted(t, x);
        assert(levels_comparable(l)) by {
            assert(l == s[s.len() - 1]);
        }
        assert forall|i: int| 0 <= i < r.len() implies !freq_less(l, #[trigger] r[i]) by {
            let y = r[i];
            assert(r.contains(y));
            assert(r.to_multiset().count(y) > 0);
            if y == x {
                lemma_less_facts(x, l, l);
            } else {
                assert(t.to_multiset().count(y) > 0);
                assert(t.contains(y));
                let k = choose|k: int| 0 <= k < t.len() && t[k] == y;
                assert(t[k] == s[k]);
                assert(!freq_less(s[s.len() - 1], s[k]));
            }
        }
        let q = r.push(l);
        assert forall|i: int, j: int| 0 <= i < j < q.len() implies !freq_less(
            #[trigger] q[j],
            #[trigger] q[i],
        ) by {
            if j < r.len() {
                assert(q[i] == r[i] && q[j] == r[j]);
            } else {
                assert(q[i] == r[i]);
            }
        }
        assert forall|i: int| 0 <= i < q.len() implies levels_comparable(#[trigger] q[i]) by {
            if i < r.len() {
                assert(q[i] == r[i]);
            }
        }
    } else {
        let l = s.last();
        let q = s.push(x);
        assert(levels_comparable(l)) by {
            assert(l == s[s.len() - 1]);
        }
        assert forall|i: int, j: int| 0 <= i < j < q.len() implies !freq_less(
            #[trigger] q[j],
            #[trigger] q[i],
        ) by {
            if j < s.len() {
                assert(q[i] == s[i] && q[j] == s[j]);
            } else {
                assert(q[i] == s[i]);
                assert(levels_comparable(s[i]));
                if i < s.len() - 1 {
                    assert(!freq_less(s[s.len() - 1], s[i]));
                }
                lemma_less_facts(x, l, s[i]);
            }
        }
        assert forall|i: int| 0 <= i < q.len() implies levels_comparable(#[trigger] q[i]) by {
            if i < s.len() {
                assert(q[i] == s[i]);
            }
        }
    }
}

/// Sorting orders the entries: where no entry has a NaN level (which compares with
/// nothing), no entry of the sorted list sorts before an entry ahead of it.
pub proof fn lemma_sort_sorted(s: Seq<FreqView>)
    requires
        all_comparable(s),
    ensures
        is_sorted(sort_freqs(s)),
    decreases s.len(),
{
    lemma_sort_sorted_comparable(s);
}

proof fn lemma_sort_sorted_comparable(s: Seq<FreqView>)
    requires
        all_comparable(s),
    ensures
        is_sorted(sort_freqs(s)),
        all_comparable(sort_freqs(s)),
    decreases s.len(),
{
    if s.len() > 0 {
        let t = s.drop_last();
        assert(all_comparable(t)) by {
            assert forall|i: int| 0 <= i < t.len() implies levels_comparable(#[trigger] t[i]) by {
                assert(t[i] == s[i]);
            }
        }
        lemma_sort_sorted_comparable(t);
        assert(levels_comparable(s[s.len() - 1]));
        lemma_insert_sorted_sorted(sort_freqs(t), s.last());
    }
}


/// Whether no two neighbouring entries of `r` are the same station, and no entry after the
/// first lacks a frequency.
pub open spec fn merged_apart(r: Seq<FreqView>) -> bool {
    forall|i: int| 0 < i < r.len() ==> {
        &&& !same_entry(r[i - 1], #[trigger] r[i])
        &&& r[i].freq_hertz is Some
    }
}

/// Whether every frequency set in `s` is set in some entry of `r`, and every entry of `r`
/// with a frequency has one that some entry of `s` has.
pub open spec fn same_frequencies(s: Seq<FreqView>, r: Seq<FreqView>) -> bool {
    &&& forall|j: int|
        0 <= j < s.len() && (#[trigger] s[j]).freq_hertz is Some ==> exists|i: int|
            0 <= i < r.len() && #[trigger] r[i].freq_hertz == s[j].freq_hertz
    &&& forall|i: int|
        0 <= i < r.len() && (#[trigger] r[i]).freq_hertz is Some ==> exists|j: int|
            0 <= j < s.len() && #[trigger] s[j].freq_hertz == r[i].freq_hertz
}

proof fn lemma_dedup_nonempty(s: Seq<FreqView>, mid: spec_fn(u64, u64) -> u64)
    ensures
        s.len() > 0 ==> dedup_sorted(s, mid).len() > 0,
    decreases s.len(),
{
    if s.len() > 1 {
        lemma_dedup_nonempty(s.drop_last(), mid);
    }
}

proof fn lemma_dedup_apart(s: Seq<FreqView>, mid: spec_fn(u64, u64) -> u64)
    ensures
        merged_apart(dedup_sorted(s, mid)),
    decreases s.len(),
{
    let r = dedup_sorted(s, mid);
    if s.len() > 1 {
        let t = s.drop_last();
        let d = dedup_sorted(t, mid);
        let a = s.last();
        lemma_dedup_apart(t, mid);
        lemma_dedup_nonempty(t, mid);
        if a.freq_hertz is None {
        } else if same_entry(a, d.last()) {
            let b = d.last();
            let m = merge_freq(b, a, mid);
            assert(r == d.drop_last().push(m));
            assert(m.freq_hertz == b.freq_hertz);
            assert(notes_key(m.notes) == notes_key(b.notes));
            assert forall|i: int| 0 < i < r.len() implies {
                &&& !same_entry(r[i - 1], #[trigger] r[i])
                &&& r[i].freq_hertz is Some
            } by {
                if i < r.len() - 1 {
                    assert(r[i - 1] == d[i - 1] && r[i] == d[i]);
                } else {
                    assert(r[i - 1] == d[i - 1]);
                    assert(d[i] == b);
                }
            }
        } else {
            assert(r == d.push(a));
            assert forall|i: int| 0 < i < r.len() implies {
                &&& !same_entry(r[i - 1], #[trigger] r[i])
                &&& r[i].freq_hertz is Some
            } by {
                if i < r.len() - 1 {
                    assert(r[i - 1] == d[i - 1] && r[i] == d[i]);
                } else {
                    assert(r[i - 1] == d.last());
                }
            }
        }
    }
}

proof fn lemma_dedup_keeps(s: Seq<FreqView>, mid: spec_fn(u64, u64) -> u64)
    ensures
        forall|j: int|
            0 <= j < s.len() && (#[trigger] s[j]).freq_hertz is Some ==> exists|i: int|
                0 <= i < dedup_sorted(s, mid).len() && #[trigger] dedup_sorted(s, mid)[i].freq_hertz
                    == s[j].freq_hertz,
    decreases s.len(),
{
    let r = dedup_sorted(s, mid);
    if s.len() == 1 {
        assert forall|j: int|
            0 <= j < s.len() && (#[trigger] s[j]).freq_hertz is Some implies exists|i: int|
            0 <= i < r.len() && #[trigger] r[i].freq_hertz == s[j].freq_hertz by {
            assert(r[0] == s[0]);
        }
    } else if s.len() > 1 {
        let t = s.drop_last();
        let d = dedup_sorted(t, mid);
        let a = s.last();
        lemma_dedup_keeps(t, mid);
        lemma_dedup_nonempty(t, mid);
        assert forall|j: int|
            0 <= j < s.len() && (#[trigger] s[j]).freq_hertz is Some implies exists|i: int|
            0 <= i < r.len() && #[trigger] r[i].freq_hertz == s[j].freq_hertz by {
            if j < t.len() {
                assert(t[j] == s[j]);
                let i = choose|i: int|
                    0 <= i < d.len() && #[trigger] d[i].freq_hertz == t[j].freq_hertz;
                if a.freq_hertz is None {
                    assert(r[i] == d[i]);
                } else if same_entry(a, d.last()) {
                    if i < d.len() - 1 {
                        assert(r[i] == d[i]);
                    } else {
                        assert(r[i].freq_hertz == d[i].freq_hertz);
                    }
                } else {
                    assert(r[i] == d[i]);
                }
            } else {
                if same_entry(a, d.last()) {
                    assert(r[r.len() - 1].freq_hertz == d.last().freq_hertz);
                } else {
                    assert(r[r.len() - 1] == a);
                }
            }
        }
    }
}

proof fn lemma_dedup_invents_none(s: Seq<FreqView>, mid: spec_fn(u64, u64) -> u64)
    ensures
        forall|i: int|
            0 <= i < dedup_sorted(s, mid).len() && (#[trigger] dedup_sorted(s, mid)[i]).freq_hertz
                is Some ==> exists|j: int|
                0 <= j < s.len() && #[trigger] s[j].freq_hertz == dedup_sorted(s, mid)[i].freq_hertz,
    decreases s.len(),
{
    let r = dedup_sorted(s, mid);
    if s.len() == 1 {
        assert forall|i: int|
            0 <= i < r.len() && (#[trigger] r[i]).freq_hertz is Some implies exists|j: int|
            0 <= j < s.len() && #[trigger] s[j].freq_hertz == r[i].freq_hertz by {
            assert(r[0] == s[0]);
        }
    } else if s.len() > 1 {
        let t = s.drop_last();
        let d = dedup_sorted(t, mid);
        let a = s.last();
        lemma_dedup_invents_none(t, mid);
        lemma_dedup_nonempty(t, mid);
        assert forall|i: int|
            0 <= i < r.len() && (#[trigger] r[i]).freq_hertz is Some implies exists|j: int|
            0 <= j < s.len() && #[trigger] s[j].freq_hertz == r[i].freq_hertz by {
            if a.freq_hertz is Some && !same_entry(a, d.last()) && i == r.len() - 1 {
                assert(r[i] == a);
                assert(s[s.len() - 1] == a);
            } else {
                assert(r[i].freq_hertz == d[i].freq_hertz);
                let j = choose|j: int|
                    0 <= j < t.len() && #[trigger] t[j].freq_hertz == d[i].freq_hertz;
                assert(s[j] == t[j]);
            }
        }
    }
}

/// Merging duplicates leaves no two neighbouring entries of the same station and no entry
/// after the first without a frequency, keeps every frequency of the list, and makes none up.
pub proof fn lemma_dedup_laws(s: Seq<FreqView>, mid: spec_fn(u64, u64) -> u64)
    ensures
        merged_apart(dedup_sorted(sort_freqs(s), mid)),
        same_frequencies(s, dedup_sorted(sort_freqs(s), mid)),
{
    broadcast use vstd::seq_lib::group_to_multiset_ensures;
    let q = sort_freqs(s);
    let r = dedup_sorted(q, mid);
    lemma_sort_keeps_entries(s);
    lemma_dedup_apart(q, mid);
    lemma_dedup_keeps(q, mid);
    lemma_dedup_invents_none(q, mid);
    assert forall|j: int|
        0 <= j < s.len() && (#[trigger] s[j]).freq_hertz is Some implies exists|i: int|
        0 <= i < r.len() && #[trigger] r[i].freq_hertz == s[j].freq_hertz by {
        assert(s.contains(s[j]));
        assert(s.to_multiset().count(s[j]) > 0);
        assert(q.contains(s[j]));
        let k = choose|k: int| 0 <= k < q.len() && q[k] == s[j];
        assert(q[k].freq_hertz is Some);
    }
    assert forall|i: int|
        0 <= i < r.len() && (#[trigger] r[i]).freq_hertz is Some implies exists|j: int|
        0 <= j < s.len() && #[trigger] s[j].freq_hertz == r[i].freq_hertz by {
        let k = choose|k: int| 0 <= k < q.len() && #[trigger] q[k].freq_hertz == r[i].freq_hertz;
        assert(q.contains(q[k]));
        assert(q.to_multiset().count(q[k]) > 0);
        assert(s.contains(q[k]));
    }
}


/// Whether frequency `a` is no greater than `b`, an entry without a frequency counting as
/// least.
pub open spec fn hertz_le(a: Option<u64>, b: Option<u64>) -> bool {
    match (a, b) {
        (None, _) => true,
        (Some(_), None) => false,
        (Some(x), Some(y)) => x <= y,
    }
}

/// Whether the frequencies of `s` ascend: no entry comes after one of a greater frequency.
pub open spec fn freq_ascending(s: Seq<FreqView>) -> bool {
    forall|i: int, j: int|
        #![trigger s[i], s[j]]
        0 <= i < j < s.len() ==> hertz_le(s[i].freq_hertz, s[j].freq_hertz)
}

proof fn lemma_less_by_hertz(a: FreqView, b: FreqView)
    ensures
        freq_less(a, b) ==> hertz_le(a.freq_hertz, b.freq_hertz),
        !freq_less(a, b) ==> hertz_le(b.freq_hertz, a.freq_hertz),
{
}

proof fn lemma_insert_ascending(s: Seq<FreqView>, x: FreqView)
    requires
        freq_ascending(s),
    ensures
        freq_ascending(insert_sorted(s, x)),
        forall|k: int|
            0 <= k < insert_sorted(s, x).len() ==> #[trigger] insert_sorted(s, x)[k] == x
                || s.contains(insert_sorted(s, x)[k]),
    decreases s.len(),
{
    let r = insert_sorted(s, x);
    if s.len() == 0 {
        assert(r[0] == x);
    } else if freq_less(x, s.last()) {
        let t = s.drop_last();
        let l = s.last();
        lemma_insert_ascending(t, x);
        lemma_less_by_hertz(x, l);
        let r0 = insert_sorted(t, x);
        assert(r == r0.push(l));
        assert forall|k: int| 0 <= k < r0.len() implies hertz_le(
            #[trigger] r0[k].freq_hertz,
            l.freq_hertz,
        ) by {
            if r0[k] != x {
                assert(t.contains(r0[k]));
                let m = choose|m: int| 0 <= m < t.len() && t[m] == r0[k];
                assert(s[m] == t[m] && s[s.len() - 1] == l);
            }
        }
        assert forall|i: int, j: int| 0 <= i < j < r.len() implies hertz_le(
            r[i].freq_hertz,
            r[j].freq_hertz,
        ) by {
            assert(r[i] == r0[i]);
            if j < r.len() - 1 {
                assert(r[j] == r0[j]);
            }
        }
        assert forall|k: int| 0 <= k < r.len() implies #[trigger] r[k] == x || s.contains(r[k]) by {
            if k < r.len() - 1 {
                assert(r[k] == r0[k]);
                if r0[k] != x {
                    let m = choose|m: int| 0 <= m < t.len() && t[m] == r0[k];
                    assert(s[m] == t[m]);
                }
            } else {
                assert(s[s.len() - 1] == l);
            }
        }
    } else {
        let l = s.last();
        lemma_less_by_hertz(x, l);
        assert(r == s.push(x));
        assert forall|i: int, j: int| 0 <= i < j < r.len() implies hertz_le(
            r[i].freq_hertz,
            r[j].freq_hertz,
        ) by {
            assert(r[i] == s[i]);
            if j < r.len() - 1 {
                assert(r[j] == s[j]);
            } else if i < s.len() - 1 {
                assert(hertz_le(s[i].freq_hertz, s[s.len() - 1].freq_hertz));
            }
        }
        assert forall|k: int| 0 <= k < r.len() implies #[trigger] r[k] == x || s.contains(r[k]) by {
            if k < s.len() {
                assert(r[k] == s[k]);
            }
        }
    }
}

/// Sorting puts the frequencies in ascending order, whatever else the entries hold.
pub proof fn lemma_sort_by_frequency(s: Seq<FreqView>)
    ensures
        freq_ascending(sort_freqs(s)),
    decreases s.len(),
{
    if s.len() > 0 {
        lemma_sort_by_frequency(s.drop_last());
        lemma_insert_ascending(sort_freqs(s.drop_last()), s.last());
    }
}

proof fn lemma_dedup_ascending(s: Seq<FreqView>, mid: spec_fn(u64, u64) -> u64)
    requires
        freq_ascending(s),
    ensures
        freq_ascending(dedup_sorted(s, mid)),
        s.len() > 0 ==> forall|k: int|
            0 <= k < dedup_sorted(s, mid).len() ==> hertz_le(
                #[trigger] dedup_sorted(s, mid)[k].freq_hertz,
                s.last().freq_hertz,
            ),
    decreases s.len(),
{
    let r = dedup_sorted(s, mid);
    if s.len() == 1 {
        assert(r == s);
    } else if s.len() > 1 {
        let t = s.drop_last();
        let d = dedup_sorted(t, mid);
        let a = s.last();
        assert forall|i: int, j: int| 0 <= i < j < t.len() implies hertz_le(
            t[i].freq_hertz,
            t[j].freq_hertz,
        ) by {
            assert(t[i] == s[i] && t[j] == s[j]);
        }
        lemma_dedup_ascending(t, mid);
        lemma_dedup_nonempty(t, mid);
        assert(hertz_le(t.last().freq_hertz, a.freq_hertz)) by {
            assert(t.last() == s[s.len() - 2] && a == s[s.len() - 1]);
        }
        assert forall|k: int| 0 <= k < d.len() implies hertz_le(
            #[trigger] d[k].freq_hertz,
            a.freq_hertz,
        ) by {
            assert(hertz_le(d[k].freq_hertz, t.last().freq_hertz));
        }
        if a.freq_hertz is None {
            assert(r == d);
        } else if same_entry(a, d.last()) {
            let m = merge_freq(d.last(), a, mid);
            assert(r == d.drop_last().push(m));
            assert forall|k: int| 0 <= k < r.len() implies #[trigger] r[k].freq_hertz
                == d[k].freq_hertz by {
                if k < r.len() - 1 {
                    assert(r[k] == d[k]);
                }
            }
            assert forall|i: int, j: int| 0 <= i < j < r.len() implies hertz_le(
                r[i].freq_hertz,
                r[j].freq_hertz,
            ) by {
                assert(r[i].freq_hertz == d[i].freq_hertz);
                assert(r[j].freq_hertz == d[j].freq_hertz);
            }
            assert forall|k: int| 0 <= k < r.len() implies hertz_le(
                #[trigger] r[k].freq_hertz,
                a.freq_hertz,
            ) by {
                assert(r[k].freq_hertz == d[k].freq_hertz);
            }
        } else {
            assert(r == d.push(a));
            assert forall|i: int, j: int| 0 <= i < j < r.len() implies hertz_le(
                r[i].freq_hertz,
                r[j].freq_hertz,
            ) by {
                assert(r[i] == d[i]);
                if j < r.len() - 1 {
                    assert(r[j] == d[j]);
                }
            }
            assert forall|k: int| 0 <= k < r.len() implies hertz_le(
                #[trigger] r[k].freq_hertz,
                a.freq_hertz,
            ) by {
                if k < r.len() - 1 {
                    assert(r[k] == d[k]);
                }
            }
        }
    }
}

/// Merging duplicates leaves the frequencies in ascending order, whatever the list held.
pub proof fn lemma_dedup_by_frequency(s: Seq<FreqView>, mid: spec_fn(u64, u64) -> u64)
    ensures
        freq_ascending(dedup_sorted(sort_freqs(s), mid)),
{
    lemma_sort_by_frequency(s);
    lemma_dedup_ascending(sort_freqs(s), mid);
}


/// Merging one list into another leaves the frequencies ascending, no two neighbouring
/// entries of the same station, every frequency either list held, and none that neither
/// held.
pub proof fn lemma_merge_laws(a: Seq<FreqView>, b: Seq<FreqView>, mid: spec_fn(u64, u64) -> u64)
    ensures
        freq_ascending(dedup_sorted(sort_freqs(a + b), mid)),
        merged_apart(dedup_sorted(sort_freqs(a + b), mid)),
        same_frequencies(a + b, dedup_sorted(sort_freqs(a + b), mid)),
{
    lemma_dedup_by_frequency(a + b, mid);
    lemma_dedup_laws(a + b, mid);
}


proof fn lemma_sort_keeps_ordered(s: Seq<FreqView>)
    requires
        forall|i: int| 0 <= i < s.len() - 1 ==> !freq_less(#[trigger] s[i + 1], s[i]),
    ensures
        sort_freqs(s) == s,
    decreases s.len(),
{
    if s.len() > 0 {
        let t = s.drop_last();
        assert forall|i: int| 0 <= i < t.len() - 1 implies !freq_less(#[trigger] t[i + 1], t[i]) by {
            assert(t[i + 1] == s[i + 1] && t[i] == s[i]);
            assert(!freq_less(s[i + 1], s[i]));
        }
        lemma_sort_keeps_ordered(t);
        if t.len() > 0 {
            assert(!freq_less(s[s.len() - 1], s[s.len() - 2]));
            assert(t.last() == s[s.len() - 2]);
        } else {
            assert(seq![s.last()] =~= s);
        }
        assert(t.push(s.last()) =~= s);
    }
}

proof fn lemma_dedup_keeps_apart(r: Seq<FreqView>, mid: spec_fn(u64, u64) -> u64)
    requires
        merged_apart(r),
    ensures
        dedup_sorted(r, mid) == r,
    decreases r.len(),
{
    if r.len() > 1 {
        let t = r.drop_last();
        assert forall|i: int| 0 < i < t.len() implies {
            &&& !same_entry(t[i - 1], #[trigger] t[i])
            &&& t[i].freq_hertz is Some
        } by {
            assert(t[i - 1] == r[i - 1] && t[i] == r[i]);
            assert(!same_entry(r[i - 1], r[i]) && r[i].freq_hertz is Some);
        }
        lemma_dedup_keeps_apart(t, mid);
        let k = r.len() - 1;
        assert(!same_entry(r[k - 1], r[k]) && r[k].freq_hertz is Some);
        assert(t.last() == r[k - 1]);
        assert(t.push(r.last()) =~= r);
    }
}

proof fn lemma_merged_after(c: FreqView, b: FreqView, a: FreqView, mid: spec_fn(u64, u64) -> u64)
    requires
        !freq_less(b, c),
        !same_entry(c, b),
        same_entry(a, b),
    ensures
        !freq_less(merge_freq(b, a, mid), c),
{
    let tb = notes_text(b.notes);
    let tc = notes_text(c.notes);
    let ta = notes_text(a.notes);
    lemma_text_less_order(tc, tb, ta);
    lemma_text_less_order(tb, tc, ta);
    lemma_text_less_order(ta, tb, tc);
    lemma_text_less_order(tc, ta, tb);
    if opt_u64_order(b.freq_hertz, c.freq_hertz) == Ordering::Equal {
        assert(b.freq_hertz == c.freq_hertz);
        assert(tb != tc);
        assert(text_less(tc, tb));
        if text_order(ta, tb) == Ordering::Greater {
            assert(text_less(tb, ta));
            assert(text_less(tc, ta));
        }
    }
}

proof fn lemma_kept_after(e: FreqView, b: FreqView, a: FreqView)
    requires
        !freq_less(a, e),
        e.freq_hertz == b.freq_hertz,
        notes_text(e.notes) == notes_text(b.notes),
        !same_entry(a, b),
    ensures
        !freq_less(a, b),
{
    if opt_u64_order(a.freq_hertz, b.freq_hertz) == Ordering::Equal && text_order(
        notes_text(a.notes),
        notes_text(b.notes),
    ) == Ordering::Equal {
        assert(a.freq_hertz == b.freq_hertz);
        assert(notes_text(a.notes) == notes_text(b.notes));
    }
}

/// The notes text of `f` and its frequency are those of some entry of `q`.
spec fn drawn_from(f: FreqView, q: Seq<FreqView>) -> bool {
    exists|k: int|
        0 <= k < q.len() && #[trigger] q[k].freq_hertz == f.freq_hertz && notes_text(q[k].notes)
            == notes_text(f.notes)
}

proof fn lemma_dedup_ordered(q: Seq<FreqView>, mid: spec_fn(u64, u64) -> u64)
    requires
        is_sorted(q),
    ensures
        forall|i: int|
            0 <= i < dedup_sorted(q, mid).len() - 1 ==> !freq_less(
                #[trigger] dedup_sorted(q, mid)[i + 1],
                dedup_sorted(q, mid)[i],
            ),
        q.len() > 0 ==> drawn_from(dedup_sorted(q, mid).last(), q),
    decreases q.len(),
{
    let r = dedup_sorted(q, mid);
    if q.len() <= 1 {
        if q.len() == 1 {
            assert(r.last() == q[0]);
            assert(q[0].freq_hertz == r.last().freq_hertz);
        }
    } else {
        let t = q.drop_last();
        let a = q.last();
        let d = dedup_sorted(t, mid);
        assert forall|i: int, j: int| 0 <= i < j < t.len() implies !freq_less(
            #[trigger] t[j],
            #[trigger] t[i],
        ) by {
            assert(t[i] == q[i] && t[j] == q[j]);
        }
        lemma_dedup_ordered(t, mid);
        lemma_dedup_nonempty(t, mid);
        lemma_dedup_apart(t, mid);
        let b = d.last();
        let kb = choose|k: int|
            0 <= k < t.len() && #[trigger] t[k].freq_hertz == b.freq_hertz && notes_text(
                t[k].notes,
            ) == notes_text(b.notes);
        if a.freq_hertz is None {
            assert(r == d);
            assert(q[kb] == t[kb]);
        } else if same_entry(a, b) {
            let m = merge_freq(b, a, mid);
            assert(r == d.drop_last().push(m));
            assert forall|i: int| 0 <= i < r.len() - 1 implies !freq_less(
                #[trigger] r[i + 1],
                r[i],
            ) by {
                if i + 1 < r.len() - 1 {
                    assert(r[i + 1] == d[i + 1] && r[i] == d[i]);
                } else {
                    assert(r[i] == d[i] && r[i + 1] == m);
                    assert(!freq_less(d[i + 1], d[i]));
                    assert(d[i + 1] == b);
                    assert(!same_entry(d[i], d[i + 1]));
                    lemma_merged_after(d[i], b, a, mid);
                }
            }
            if text_order(notes_text(a.notes), notes_text(b.notes)) == Ordering::Greater {
                assert(q[q.len() - 1] == a);
            } else {
                assert(q[kb] == t[kb]);
            }
        } else {
            assert(r == d.push(a));
            let e = t[kb];
            assert(q[kb] == e && q[q.len() - 1] == a);
            assert(!freq_less(a, e));
            assert forall|i: int| 0 <= i < r.len() - 1 implies !freq_less(
                #[trigger] r[i + 1],
                r[i],
            ) by {
                if i + 1 < r.len() - 1 {
                    assert(r[i + 1] == d[i + 1] && r[i] == d[i]);
                } else {
                    assert(r[i] == b && r[i + 1] == a);
                    lemma_kept_after(e, b, a);
                }
            }
            assert(r.last() == a);
        }
    }
}

/// Merging duplicates a second time changes nothing, where no level is a NaN: the list it
/// leaves is in order and holds no neighbouring duplicates.
pub proof fn lemma_dedup_idempotent(s: Seq<FreqView>, mid: spec_fn(u64, u64) -> u64)
    requires
        all_comparable(s),
    ensures
        dedup_sorted(sort_freqs(dedup_sorted(sort_freqs(s), mid)), mid) == dedup_sorted(
            sort_freqs(s),
            mid,
        ),
{
    let q = sort_freqs(s);
    let r = dedup_sorted(q, mid);
    lemma_sort_sorted(s);
    lemma_dedup_ordered(q, mid);
    lemma_sort_keeps_ordered(r);
    lemma_dedup_laws(s, mid);
    lemma_dedup_keeps_apart(r, mid);
}


/// After merging duplicates, where no level of the list was a NaN, no entry sorts before
/// the one ahead of it, so that sorting the result again leaves it as it is.
pub proof fn lemma_dedup_in_order(s: Seq<FreqView>, mid: spec_fn(u64, u64) -> u64)
    requires
        all_comparable(s),
    ensures
        forall|i: int|
            0 <= i < dedup_sorted(sort_freqs(s), mid).len() - 1 ==> !freq_less(
                #[trigger] dedup_sorted(sort_freqs(s), mid)[i + 1],
                dedup_sorted(sort_freqs(s), mid)[i],
            ),
        sort_freqs(dedup_sorted(sort_freqs(s), mid)) == dedup_sorted(sort_freqs(s), mid),
{
    lemma_sort_sorted(s);
    lemma_dedup_ordered(sort_freqs(s), mid);
    lemma_sort_keeps_ordered(dedup_sorted(sort_freqs(s), mid));
}

// ---------------------------------------------------------------------------
// Stability
// ---------------------------------------------------------------------------

/// The entries of `s` that compare equal to `e`, in their order in `s`.
pub open spec fn equal_to(s: Seq<FreqView>, e: FreqView) -> Seq<FreqView>
    decreases s.len(),
{
    if s.len() == 0 {
        s
    } else if freq_order(s.last(), e) == Some(Ordering::Equal) {
        equal_to(s.drop_last(), e).push(s.last())
    } else {
        equal_to(s.drop_last(), e)
    }
}

proof fn lemma_equal_comparable(x: FreqView, e: FreqView)
    ensures
        freq_order(x, e) == Some(Ordering::Equal) ==> levels_comparable(x) && levels_comparable(e),
{
}

proof fn lemma_equal_not_less(x: FreqView, y: FreqView, e: FreqView)
    requires
        freq_order(x, e) == Some(Ordering::Equal),
        freq_order(y, e) == Some(Ordering::Equal),
    ensures
        !freq_less(x, y),
{
    lemma_equal_comparable(x, e);
    lemma_equal_comparable(y, e);
    lemma_freq_order_laws(y, e, x);
    lemma_freq_order_laws(x, e, y);
    lemma_freq_order_laws(x, y, e);
}

proof fn lemma_insert_equal_to(t: Seq<FreqView>, x: FreqView, e: FreqView)
    ensures
        equal_to(insert_sorted(t, x), e) == (if freq_order(x, e) == Some(Ordering::Equal) {
            equal_to(t, e).push(x)
        } else {
            equal_to(t, e)
        }),
    decreases t.len(),
{
    let r = insert_sorted(t, x);
    if t.len() == 0 {
        assert(r.drop_last() =~= t);
    } else if freq_less(x, t.last()) {
        let l = t.last();
        let u = t.drop_last();
        lemma_insert_equal_to(u, x, e);
        if freq_order(x, e) == Some(Ordering::Equal) && freq_order(l, e) == Some(Ordering::Equal) {
            lemma_equal_not_less(x, l, e);
        }
        assert(r == insert_sorted(u, x).push(l));
        assert(r.drop_last() =~= insert_sorted(u, x));
        assert(r.last() == l);
    } else {
        assert(r.drop_last() =~= t);
    }
}

/// Sorting is stable: the entries that compare equal to any one entry keep, among
/// themselves, the order they had.
pub proof fn lemma_sort_stable(s: Seq<FreqView>, e: FreqView)
    ensures
        equal_to(sort_freqs(s), e) == equal_to(s, e),
    decreases s.len(),
{
    if s.len() > 0 {
        lemma_sort_stable(s.drop_last(), e);
        lemma_insert_equal_to(sort_freqs(s.drop_last()), s.last(), e);
    }
}

// ---------------------------------------------------------------------------
// Merging several lists
// ---------------------------------------------------------------------------

/// The entries of the lists `ls` merged, one after another, into the entries `a`.
pub open spec fn merged_in_turn(
    a: Seq<FreqView>,
    ls: Seq<Seq<FreqView>>,
    mid: spec_fn(u64, u64) -> u64,
) -> Seq<FreqView>
    decreases ls.len(),
{
    if ls.len() == 0 {
        a
    } else {
        merged_in_turn(dedup_sorted(sort_freqs(a + ls[0]), mid), ls.drop_first(), mid)
    }
}

/// The entries of each list of `ls`.
pub open spec fn list_entries(ls: Seq<Freqs>) -> Seq<Seq<FreqView>> {
    ls.map_values(|f: Freqs| f@.freqs)
}

impl Freqs {
    /// Merges the lists `lists` into this one, one after another, as [`Freqs::merge`] does.
    pub fn merge_all<M: Fn(u64, u64) -> u64>(&mut self, lists: Vec<Freqs>, midpoint: M)
        requires
            averages_levels(midpoint),
        ensures
            final(self)@.file_type == old(self)@.file_type,
            final(self)@.freqs == merged_in_turn(
                old(self)@.freqs,
                list_entries(lists@),
                mid_of(midpoint),
            ),
    {
        let mut lists = lists;
        let ghost mid = mid_of(midpoint);
        let ghost target = merged_in_turn(self@.freqs, list_entries(lists@), mid);
        let ghost file_type = self@.file_type;
        while lists.len() > 0
            invariant
                averages_levels(midpoint),
                mid == mid_of(midpoint),
                self@.file_type == file_type,
                merged_in_turn(self@.freqs, list_entries(lists@), mid) == target,
            decreases lists.len(),
        {
            let ghost before = lists@;
            let next = lists.remove(0);
            proof {
                assert(list_entries(lists@) =~= list_entries(before).drop_first());
                assert(list_entries(before)[0] == next@.freqs);
            }
            let mut more = next.freqs;
            let ghost a = self.freqs@;
            let ghost b = more@;
            self.freqs.append(&mut more);
            assert(views(self.freqs@) =~= views(a) + views(b));
            self.sort();
            let mut v: Vec<Freq> = Vec::new();
            std::mem::swap(&mut v, &mut self.freqs);
            self.freqs = dedup_entries(v, &midpoint);
        }
        assert(list_entries(lists@) =~= Seq::<Seq<FreqView>>::empty());
    }
}


/// The entries of the lists `ls`, one list after another.
pub open spec fn all_entries(ls: Seq<Seq<FreqView>>) -> Seq<FreqView>
    decreases ls.len(),
{
    if ls.len() == 0 {
        Seq::empty()
    } else {
        ls[0] + all_entries(ls.drop_first())
    }
}

/// Whether some entry of `s` is on the frequency `h`.
pub open spec fn has_hertz(s: Seq<FreqView>, h: u64) -> bool {
    exists|i: int| 0 <= i < s.len() && (#[trigger] s[i]).freq_hertz == Some(h)
}

proof fn lemma_has_hertz_concat(x: Seq<FreqView>, y: Seq<FreqView>, h: u64)
    ensures
        has_hertz(x + y, h) <==> has_hertz(x, h) || has_hertz(y, h),
{
    let s = x + y;
    if has_hertz(s, h) {
        let i = choose|i: int| 0 <= i < s.len() && (#[trigger] s[i]).freq_hertz == Some(h);
        if i < x.len() {
            assert(s[i] == x[i]);
        } else {
            assert(s[i] == y[i - x.len()]);
        }
    }
    if has_hertz(x, h) {
        let i = choose|i: int| 0 <= i < x.len() && (#[trigger] x[i]).freq_hertz == Some(h);
        assert(s[i] == x[i]);
    }
    if has_hertz(y, h) {
        let i = choose|i: int| 0 <= i < y.len() && (#[trigger] y[i]).freq_hertz == Some(h);
        assert(s[x.len() + i] == y[i]);
    }
}

proof fn lemma_same_frequencies_has(s: Seq<FreqView>, r: Seq<FreqView>, h: u64)
    requires
        same_frequencies(s, r),
    ensures
        has_hertz(s, h) <==> has_hertz(r, h),
{
    if has_hertz(s, h) {
        let j = choose|j: int| 0 <= j < s.len() && (#[trigger] s[j]).freq_hertz == Some(h);
        let i = choose|i: int| 0 <= i < r.len() && #[trigger] r[i].freq_hertz == s[j].freq_hertz;
        assert(r[i].freq_hertz == Some(h));
    }
    if has_hertz(r, h) {
        let i = choose|i: int| 0 <= i < r.len() && (#[trigger] r[i]).freq_hertz == Some(h);
        let j = choose|j: int| 0 <= j < s.len() && #[trigger] s[j].freq_hertz == r[i].freq_hertz;
        assert(s[j].freq_hertz == Some(h));
    }
}

/// Merging lists one after another (at least one) leaves the frequencies ascending, no two
/// neighbouring entries of the same station, and exactly the frequencies that the first list
/// and the merged lists held.
pub proof fn lemma_merge_all_laws(
    a: Seq<FreqView>,
    ls: Seq<Seq<FreqView>>,
    mid: spec_fn(u64, u64) -> u64,
)
    requires
        ls.len() > 0,
    ensures
        freq_ascending(merged_in_turn(a, ls, mid)),
        merged_apart(merged_in_turn(a, ls, mid)),
        forall|h: u64|
            #[trigger] has_hertz(merged_in_turn(a, ls, mid), h) <==> has_hertz(
                a + all_entries(ls),
                h,
            ),
    decreases ls.len(),
{
    let r1 = dedup_sorted(sort_freqs(a + ls[0]), mid);
    let rest = ls.drop_first();
    let r = merged_in_turn(a, ls, mid);
    lemma_merge_laws(a, ls[0], mid);
    assert(all_entries(ls) == ls[0] + all_entries(rest));
    if ls.len() == 1 {
        assert(rest.len() == 0);
        assert(r == r1);
        assert(all_entries(ls) =~= ls[0]);
        assert forall|h: u64| #[trigger] has_hertz(r, h) <==> has_hertz(a + all_entries(ls), h) by {
            lemma_same_frequencies_has(a + ls[0], r1, h);
        }
    } else {
        lemma_merge_all_laws(r1, rest, mid);
        assert(r == merged_in_turn(r1, rest, mid));
        assert forall|h: u64| #[trigger] has_hertz(r, h) <==> has_hertz(a + all_entries(ls), h) by {
            lemma_same_frequencies_has(a + ls[0], r1, h);
            lemma_has_hertz_concat(r1, all_entries(rest), h);
            lemma_has_hertz_concat(a, ls[0], h);
            lemma_has_hertz_concat(ls[0], all_entries(rest), h);
            lemma_has_hertz_concat(a, all_entries(ls), h);
        }
    }
}

} // verus!
