//! Text as the lists hold it: white space and trimming, splitting, lines, decimal numbers
//! and booleans as `from_str` reads them and `Display` writes them.

use vstd::prelude::*;

verus! {

// ---------------------------------------------------------------------------
// Characters
// ---------------------------------------------------------------------------

/// Whether `c` has the Unicode `White_Space` property, the set that `str::trim`
/// and `str::split_whitespace` strip and split on.
pub open spec fn is_space(c: char) -> bool {
    let u = c as u32;
    ||| 0x09 <= u <= 0x0d
    ||| u == 0x20
    ||| u == 0x85
    ||| u == 0xa0
    ||| u == 0x1680
    ||| 0x2000 <= u <= 0x200a
    ||| u == 0x2028
    ||| u == 0x2029
    ||| u == 0x202f
    ||| u == 0x205f
    ||| u == 0x3000
}

/// Executable test for [`is_space`].
pub fn char_is_space(c: char) -> (b: bool)
    ensures
        b == is_space(c),
{
    let u = c as u32;
    (0x09 <= u && u <= 0x0d) || u == 0x20 || u == 0x85 || u == 0xa0 || u == 0x1680 || (0x2000
        <= u && u <= 0x200a) || u == 0x2028 || u == 0x2029 || u == 0x202f || u == 0x205f || u
        == 0x3000
}

/// Whether `c` is one of the ASCII digits `0` to `9`.
pub open spec fn is_digit(c: char) -> bool {
    '0' <= c && c <= '9'
}

/// The value of the ASCII digit `c`.
pub open spec fn digit_value(c: char) -> nat {
    ((c as u32) - 48) as nat
}

/// The ASCII digit that stands for `d`, for `d < 10`.
pub open spec fn digit_char(d: nat) -> char {
    ((d + 48) as u32) as char
}

/// The ASCII digit for `d`.
pub fn digit_to_char(d: u64) -> (c: char)
    requires
        d < 10,
    ensures
        c == digit_char(d as nat),
        is_digit(c),
        digit_value(c) == d,
{
    let b: u8 = (d as u8) + 48;
    b as char
}

/// The value of the digit `c`, which must be an ASCII digit.
pub fn char_to_digit(c: char) -> (d: u64)
    requires
        is_digit(c),
    ensures
        d == digit_value(c),
        d < 10,
{
    ((c as u32) - 48) as u64
}

// ---------------------------------------------------------------------------
// Conversions between `String` and `Vec<char>`
// ---------------------------------------------------------------------------

/// The characters of `s`, in order.
pub fn chars_of(s: &str) -> (r: Vec<char>)
    ensures
        r@ == s@,
{
    let mut r: Vec<char> = Vec::new();
    for c in it: s.chars()
        invariant
            r@ == it.seq().take(it.index() as int),
            it.seq() == s@,
    {
        r.push(c);
    }
    r
}

/// `String::from_iter` over the characters of `v`: a `String` whose characters are those of `v`.
#[verifier::external_body]
pub(crate) fn string_from_chars(v: Vec<char>) -> (s: String)
    ensures
        s@ == v@,
{
    String::from_iter(v)
}

/// A `String` holding the characters `v[lo..hi]`.
pub fn string_from_range(v: &Vec<char>, lo: usize, hi: usize) -> (s: String)
    requires
        lo <= hi <= v.len(),
    ensures
        s@ == v@.subrange(lo as int, hi as int),
{
    let mut out: Vec<char> = Vec::new();
    let mut i = lo;
    while i < hi
        invariant
            lo <= i <= hi <= v.len(),
            out@ == v@.subrange(lo as int, i as int),
        decreases hi - i,
    {
        out.push(v[i]);
        i += 1;
    }
    string_from_chars(out)
}

/// Whether `v[lo..hi]` holds exactly the characters of `word`.
pub fn range_equals(v: &Vec<char>, lo: usize, hi: usize, word: &Vec<char>) -> (b: bool)
    requires
        lo <= hi <= v.len(),
    ensures
        b == (v@.subrange(lo as int, hi as int) == word@),
{
    if hi - lo != word.len() {
        return false;
    }
    let mut i: usize = 0;
    while i < word.len()
        invariant
            lo <= hi <= v.len(),
            hi - lo == word.len(),
            i <= word.len(),
            forall|k: int| 0 <= k < i ==> v@[lo + k] == word@[k],
        decreases word.len() - i,
    {
        if v[lo + i] != word[i] {
            assert(v@.subrange(lo as int, hi as int)[i as int] != word@[i as int]);
            return false;
        }
        i += 1;
    }
    assert(v@.subrange(lo as int, hi as int) =~= word@);
    true
}

// ---------------------------------------------------------------------------
// Comparing
// ---------------------------------------------------------------------------

/// Whether `a` comes before `b` in the order of `str`: at the first character where they
/// differ `a` has the smaller one, or `a` is a proper prefix of `b`.
pub open spec fn text_less(a: Seq<char>, b: Seq<char>) -> bool
    decreases a.len(),
{
    if a.len() == 0 {
        b.len() > 0
    } else if b.len() == 0 {
        false
    } else if a[0] != b[0] {
        a[0] < b[0]
    } else {
        text_less(a.drop_first(), b.drop_first())
    }
}

/// `text_less` is a strict total order: never both ways, one way for different texts, and
/// transitive.
pub proof fn lemma_text_less_order(a: Seq<char>, b: Seq<char>, c: Seq<char>)
    ensures
        !(text_less(a, b) && text_less(b, a)),
        a != b ==> text_less(a, b) || text_less(b, a),
        !text_less(a, a),
        text_less(a, b) && text_less(b, c) ==> text_less(a, c),
    decreases a.len(),
{
    if a.len() > 0 && b.len() > 0 && c.len() > 0 {
        lemma_text_less_order(a.drop_first(), b.drop_first(), c.drop_first());
        if a[0] == b[0] && a.drop_first() == b.drop_first() {
            assert(a =~= seq![a[0]] + a.drop_first());
            assert(b =~= seq![b[0]] + b.drop_first());
        }
    } else if a.len() > 0 && b.len() > 0 {
        lemma_text_less_order(a.drop_first(), b.drop_first(), b.drop_first());
        if a[0] == b[0] && a.drop_first() == b.drop_first() {
            assert(a =~= seq![a[0]] + a.drop_first());
            assert(b =~= seq![b[0]] + b.drop_first());
        }
    } else if a.len() > 0 {
        lemma_text_less_order(a.drop_first(), a.drop_first(), a.drop_first());
    } else if b.len() == 0 {
        assert(a =~= b);
    }
}

/// Whether `a` and `b` hold the same characters.
pub fn chars_equal(a: &Vec<char>, b: &Vec<char>) -> (r: bool)
    ensures
        r == (a@ == b@),
{
    assert(a@.subrange(0, a@.len() as int) =~= a@);
    range_equals(a, 0, a.len(), b)
}

/// Whether `a` comes before `b` in the order of `str`.
pub fn chars_less(a: &Vec<char>, b: &Vec<char>) -> (r: bool)
    ensures
        r == text_less(a@, b@),
{
    assert(a@.skip(0) =~= a@ && b@.skip(0) =~= b@);
    let mut i: usize = 0;
    while i < a.len() && i < b.len()
        invariant
            i <= a.len(),
            i <= b.len(),
            text_less(a@, b@) == text_less(a@.skip(i as int), b@.skip(i as int)),
        decreases a.len() - i,
    {
        let ghost sa = a@.skip(i as int);
        let ghost sb = b@.skip(i as int);
        assert(sa[0] == a@[i as int] && sb[0] == b@[i as int]);
        if a[i] != b[i] {
            return a[i] < b[i];
        }
        assert(sa.drop_first() =~= a@.skip(i + 1));
        assert(sb.drop_first() =~= b@.skip(i + 1));
        i += 1;
    }
    i < b.len()
}

// ---------------------------------------------------------------------------
// Cleaning
// ---------------------------------------------------------------------------

/// `c`, with a comma or a double quote replaced by an underscore.
pub open spec fn clean_char(c: char) -> char {
    if c == ',' || c == '"' {
        '_'
    } else {
        c
    }
}

/// `s` with every comma and double quote replaced by an underscore, as
/// `s.replace(",", "_").replace("\"", "_")` gives it.
pub open spec fn clean(s: Seq<char>) -> Seq<char> {
    s.map_values(|c: char| clean_char(c))
}

/// Appends `clean(v)` to `out`.
pub fn push_clean(out: &mut Vec<char>, v: &Vec<char>)
    ensures
        final(out)@ == old(out)@ + clean(v@),
{
    let mut i: usize = 0;
    while i < v.len()
        invariant
            i <= v.len(),
            out@ == old(out)@ + clean(v@.take(i as int)),
        decreases v.len() - i,
    {
        let c = v[i];
        let d = if c == ',' || c == '"' {
            '_'
        } else {
            c
        };
        out.push(d);
        i += 1;
        assert(clean(v@.take(i as int)) =~= clean(v@.take(i - 1)).push(d));
        assert(out@ =~= old(out)@ + clean(v@.take(i as int)));
    }
    assert(v@.take(v.len() as int) =~= v@);
}

// ---------------------------------------------------------------------------
// Trimming
// ---------------------------------------------------------------------------

/// `s` without its leading white space.
pub open spec fn trim_start(s: Seq<char>) -> Seq<char>
    decreases s.len(),
{
    if s.len() > 0 && is_space(s[0]) {
        trim_start(s.drop_first())
    } else {
        s
    }
}

/// `s` without its trailing white space.
pub open spec fn trim_end(s: Seq<char>) -> Seq<char>
    decreases s.len(),
{
    if s.len() > 0 && is_space(s.last()) {
        trim_end(s.drop_last())
    } else {
        s
    }
}

/// `s` without leading and trailing white space, as `str::trim` gives it.
pub open spec fn trim(s: Seq<char>) -> Seq<char> {
    trim_end(trim_start(s))
}

proof fn lemma_trim_start_skip(s: Seq<char>, k: int)
    requires
        0 <= k <= s.len(),
        forall|i: int| 0 <= i < k ==> is_space(#[trigger] s[i]),
        k == s.len() || !is_space(s[k]),
    ensures
        trim_start(s) == s.skip(k),
    decreases k,
{
    if k == 0 {
        assert(s.skip(0) =~= s);
    } else {
        let t = s.drop_first();
        assert forall|i: int| 0 <= i < k - 1 implies is_space(#[trigger] t[i]) by {
            assert(t[i] == s[i + 1]);
        }
        if k < s.len() {
            assert(t[k - 1] == s[k]);
        }
        lemma_trim_start_skip(t, k - 1);
        assert(t.skip(k - 1) =~= s.skip(k));
    }
}

proof fn lemma_trim_end_take(s: Seq<char>, k: int)
    requires
        0 <= k <= s.len(),
        forall|i: int| k <= i < s.len() ==> is_space(#[trigger] s[i]),
        k == 0 || !is_space(s[k - 1]),
    ensures
        trim_end(s) == s.take(k),
    decreases s.len() - k,
{
    if k == s.len() {
        assert(s.take(k) =~= s);
    } else {
        let t = s.drop_last();
        assert forall|i: int| k <= i < t.len() implies is_space(#[trigger] t[i]) by {
            assert(t[i] == s[i]);
        }
        if k > 0 {
            assert(t[k - 1] == s[k - 1]);
        }
        lemma_trim_end_take(t, k);
        assert(t.take(k) =~= s.take(k));
    }
}

/// The bounds of `trim(v[lo..hi])` within `v`.
pub fn trim_range(v: &Vec<char>, lo: usize, hi: usize) -> (r: (usize, usize))
    requires
        lo <= hi <= v.len(),
    ensures
        lo <= r.0 <= r.1 <= hi,
        v@.subrange(r.0 as int, r.1 as int) == trim(v@.subrange(lo as int, hi as int)),
{
    let ghost s = v@.subrange(lo as int, hi as int);
    let mut a = lo;
    while a < hi && char_is_space(v[a])
        invariant
            lo <= a <= hi <= v.len(),
            s == v@.subrange(lo as int, hi as int),
            forall|i: int| lo <= i < a ==> is_space(#[trigger] v@[i]),
        decreases hi - a,
    {
        a += 1;
    }
    proof {
        assert forall|i: int| 0 <= i < a - lo implies is_space(#[trigger] s[i]) by {
            assert(s[i] == v@[lo + i]);
        }
        if a < hi {
            assert(s[a - lo] == v@[a as int]);
        }
        lemma_trim_start_skip(s, a - lo);
    }
    let ghost t = s.skip(a - lo);
    let mut b = hi;
    while b > a && char_is_space(v[b - 1])
        invariant
            lo <= a <= b <= hi <= v.len(),
            forall|i: int| b <= i < hi ==> is_space(#[trigger] v@[i]),
        decreases b - a,
    {
        b -= 1;
    }
    proof {
        assert(t =~= v@.subrange(a as int, hi as int));
        assert forall|i: int| b - a <= i < t.len() implies is_space(#[trigger] t[i]) by {
            assert(t[i] == v@[a + i]);
        }
        if b > a {
            assert(t[b - a - 1] == v@[b - 1]);
        }
        lemma_trim_end_take(t, b - a);
        assert(t.take(b - a) =~= v@.subrange(a as int, b as int));
    }
    (a, b)
}

/// Trimming twice trims no more than trimming once.
pub proof fn lemma_trim_idempotent(s: Seq<char>)
    ensures
        trim(trim(s)) == trim(s),
{
    let t = trim(s);
    lemma_trim_shape(s);
    if t.len() > 0 {
        lemma_trim_start_skip(t, 0);
        assert(t.skip(0) =~= t);
        lemma_trim_end_take(t, t.len() as int);
        assert(t.take(t.len() as int) =~= t);
    } else {
        assert(trim_start(t) == t);
        assert(trim_end(t) == t);
    }
}

/// A trimmed text neither starts nor ends with white space.
pub proof fn lemma_trim_shape(s: Seq<char>)
    ensures
        trim(s).len() > 0 ==> !is_space(trim(s)[0]) && !is_space(trim(s).last()),
        trim(s).len() <= s.len(),
{
    lemma_trim_start_shape(s);
    lemma_trim_end_shape(trim_start(s));
    let u = trim_start(s);
    let t = trim_end(u);
    if t.len() > 0 {
        assert(t[0] == u[0]);
    }
}

proof fn lemma_trim_start_shape(s: Seq<char>)
    ensures
        trim_start(s).len() > 0 ==> !is_space(trim_start(s)[0]),
        trim_start(s).len() <= s.len(),
    decreases s.len(),
{
    if s.len() > 0 && is_space(s[0]) {
        lemma_trim_start_shape(s.drop_first());
    }
}

proof fn lemma_trim_end_shape(s: Seq<char>)
    ensures
        trim_end(s).len() > 0 ==> !is_space(trim_end(s).last()),
        trim_end(s).len() <= s.len(),
        trim_end(s) == s.take(trim_end(s).len() as int),
    decreases s.len(),
{
    if s.len() > 0 && is_space(s.last()) {
        lemma_trim_end_shape(s.drop_last());
        assert(s.drop_last().take(trim_end(s).len() as int) =~= s.take(trim_end(s).len() as int));
    } else {
        assert(s.take(s.len() as int) =~= s);
    }
}

// ---------------------------------------------------------------------------
// Splitting
// ---------------------------------------------------------------------------

/// The index of the first `c` in `s`, or `s.len()` where there is none.
pub open spec fn find_char(s: Seq<char>, c: char) -> nat
    decreases s.len(),
{
    if s.len() == 0 {
        0
    } else if s[0] == c {
        0
    } else {
        1 + find_char(s.drop_first(), c)
    }
}

/// The pieces of `s` between the occurrences of `sep`, as `str::split` gives them.
pub open spec fn split(s: Seq<char>, sep: char) -> Seq<Seq<char>>
    decreases s.len(),
{
    let i = find_char(s, sep);
    if i >= s.len() {
        seq![s]
    } else {
        seq![s.take(i as int)] + split(s.skip(i + 1int), sep)
    }
}

pub proof fn lemma_find_char(s: Seq<char>, c: char, k: int)
    requires
        0 <= k <= s.len(),
        forall|i: int| 0 <= i < k ==> #[trigger] s[i] != c,
        k == s.len() || s[k] == c,
    ensures
        find_char(s, c) == k,
    decreases k,
{
    if k > 0 {
        let t = s.drop_first();
        assert forall|i: int| 0 <= i < k - 1 implies #[trigger] t[i] != c by {
            assert(t[i] == s[i + 1]);
        }
        if k < s.len() {
            assert(t[k - 1] == s[k]);
        }
        lemma_find_char(t, c, k - 1);
    }
}

/// Splitting gives at least one piece, and no piece longer than the text.
proof fn lemma_split_len(s: Seq<char>, sep: char)
    ensures
        split(s, sep).len() >= 1,
        forall|i: int| 0 <= i < split(s, sep).len() ==> #[trigger] split(s, sep)[i].len() <= s.len(),
    decreases s.len(),
{
    let i = find_char(s, sep);
    if i < s.len() {
        lemma_split_len(s.skip(i + 1int), sep);
    }
}

/// The bounds within `v` of the pieces of `split(v[lo..hi], sep)`.
pub fn split_ranges(v: &Vec<char>, lo: usize, hi: usize, sep: char) -> (r: Vec<(usize, usize)>)
    requires
        lo <= hi <= v.len(),
    ensures
        r.len() == split(v@.subrange(lo as int, hi as int), sep).len(),
        forall|k: int|
            0 <= k < r.len() ==> lo <= (#[trigger] r@[k]).0 <= r@[k].1 <= hi && v@.subrange(
                r@[k].0 as int,
                r@[k].1 as int,
            ) == split(v@.subrange(lo as int, hi as int), sep)[k],
{
    let ghost whole = split(v@.subrange(lo as int, hi as int), sep);
    let mut r: Vec<(usize, usize)> = Vec::new();
    let mut start = lo;
    let mut j = lo;
    while j < hi
        invariant
            lo <= start <= j <= hi <= v.len(),
            forall|i: int| start <= i < j ==> #[trigger] v@[i] != sep,
            whole == r@.map_values(|p: (usize, usize)| v@.subrange(p.0 as int, p.1 as int))
                + split(v@.subrange(start as int, hi as int), sep),
            forall|k: int| 0 <= k < r.len() ==> lo <= (#[trigger] r@[k]).0 <= r@[k].1 <= hi,
        decreases hi - j,
    {
        if v[j] == sep {
            proof {
                let s = v@.subrange(start as int, hi as int);
                assert forall|i: int| 0 <= i < j - start implies #[trigger] s[i] != sep by {
                    assert(s[i] == v@[start + i]);
                }
                assert(s[j - start] == v@[j as int]);
                lemma_find_char(s, sep, j - start);
                assert(s.take(j - start) =~= v@.subrange(start as int, j as int));
                assert(s.skip(j - start + 1) =~= v@.subrange(j + 1, hi as int));
            }
            let ghost old_r = r@;
            r.push((start, j));
            proof {
                assert(r@.map_values(|p: (usize, usize)| v@.subrange(p.0 as int, p.1 as int))
                    =~= old_r.map_values(|p: (usize, usize)| v@.subrange(p.0 as int, p.1 as int))
                    + seq![v@.subrange(start as int, j as int)]);
            }
            start = j + 1;
        }
        j += 1;
    }
    proof {
        let s = v@.subrange(start as int, hi as int);
        assert forall|i: int| 0 <= i < s.len() implies #[trigger] s[i] != sep by {
            assert(s[i] == v@[start + i]);
        }
        lemma_find_char(s, sep, s.len() as int);
    }
    let ghost old_r = r@;
    r.push((start, hi));
    proof {
        assert(r@.map_values(|p: (usize, usize)| v@.subrange(p.0 as int, p.1 as int)) =~= old_r.map_values(
            |p: (usize, usize)| v@.subrange(p.0 as int, p.1 as int),
        ) + seq![v@.subrange(start as int, hi as int)]);
        assert(whole =~= r@.map_values(|p: (usize, usize)| v@.subrange(p.0 as int, p.1 as int)));
        assert forall|k: int| 0 <= k < r.len() implies v@.subrange(
            (#[trigger] r@[k]).0 as int,
            r@[k].1 as int,
        ) == whole[k] by {
            assert(whole[k] == r@.map_values(
                |p: (usize, usize)| v@.subrange(p.0 as int, p.1 as int),
            )[k]);
        }
    }
    r
}


// ---------------------------------------------------------------------------
// Lines
// ---------------------------------------------------------------------------

/// `l` without one trailing carriage return.
pub open spec fn strip_cr(l: Seq<char>) -> Seq<char> {
    if l.len() > 0 && l.last() == '\r' {
        l.drop_last()
    } else {
        l
    }
}

/// The `i`-th piece of `p` as a line: a piece that a line feed ends (every piece but the
/// last) loses one trailing carriage return; the last piece keeps it.
pub open spec fn line_piece(p: Seq<Seq<char>>, i: int) -> Seq<char> {
    if i < p.len() - 1 {
        strip_cr(p[i])
    } else {
        p[i]
    }
}

/// The lines of `s` as `BufRead::lines` yields them: the text is cut at each line feed,
/// an empty piece after the last line feed is no line, and each line that a line feed ends
/// loses one trailing carriage return.
pub open spec fn lines(s: Seq<char>) -> Seq<Seq<char>> {
    let p = split(s, '\n');
    let n: int = if p.last().len() == 0 {
        p.len() - 1
    } else {
        p.len() as int
    };
    Seq::new(n as nat, |i: int| line_piece(p, i))
}

/// The bounds within `v` of the lines of `v`.
pub fn line_ranges(v: &Vec<char>) -> (r: Vec<(usize, usize)>)
    ensures
        r.len() == lines(v@).len(),
        forall|k: int|
            0 <= k < r.len() ==> (#[trigger] r@[k]).0 <= r@[k].1 <= v.len() && v@.subrange(
                r@[k].0 as int,
                r@[k].1 as int,
            ) == lines(v@)[k],
{
    let pieces = split_ranges(v, 0, v.len(), '\n');
    proof {
        assert(v@.subrange(0, v@.len() as int) =~= v@);
        lemma_split_len(v@, '\n');
    }
    let ghost p = split(v@, '\n');
    let last = pieces.len() - 1;
    let count = if pieces[last].0 == pieces[last].1 {
        last
    } else {
        pieces.len()
    };
    proof {
        assert(p.last() == v@.subrange(pieces@[last as int].0 as int, pieces@[last as int].1 as int));
        assert(lines(v@).len() == count);
    }
    let mut r: Vec<(usize, usize)> = Vec::new();
    let mut k: usize = 0;
    while k < count
        invariant
            count <= pieces.len(),
            lines(v@).len() == count,
            pieces.len() == p.len(),
            p == split(v@, '\n'),
            last == pieces.len() - 1,
            forall|i: int|
                0 <= i < pieces.len() ==> (#[trigger] pieces@[i]).0 <= pieces@[i].1 <= v.len()
                    && v@.subrange(pieces@[i].0 as int, pieces@[i].1 as int) == p[i],
            k <= count,
            r.len() == k,
            forall|i: int|
                0 <= i < k ==> (#[trigger] r@[i]).0 <= r@[i].1 <= v.len() && v@.subrange(
                    r@[i].0 as int,
                    r@[i].1 as int,
                ) == line_piece(p, i),
        decreases count - k,
    {
        let (a, b) = pieces[k];
        let e = if k < last && b > a && v[b - 1] == '\r' {
            b - 1
        } else {
            b
        };
        proof {
            let l = v@.subrange(a as int, b as int);
            assert(l == p[k as int]);
            if b > a {
                assert(l.last() == v@[b - 1]);
            }
            if e < b {
                assert(l.drop_last() =~= v@.subrange(a as int, e as int));
            }
        }
        r.push((a, e));
        k += 1;
    }
    r
}

// ---------------------------------------------------------------------------
// Words
// ---------------------------------------------------------------------------

/// The number of characters before the first white space in `s`.
pub open spec fn word_len(s: Seq<char>) -> nat
    decreases s.len(),
{
    if s.len() == 0 || is_space(s[0]) {
        0
    } else {
        1 + word_len(s.drop_first())
    }
}

/// The first white-space separated word of `s`, or nothing where `s` is blank: what
/// `s.split_whitespace().next().unwrap_or_default()` gives.
pub open spec fn first_word(s: Seq<char>) -> Seq<char> {
    trim_start(s).take(word_len(trim_start(s)) as int)
}

proof fn lemma_word_len(s: Seq<char>, k: int)
    requires
        0 <= k <= s.len(),
        forall|i: int| 0 <= i < k ==> !is_space(#[trigger] s[i]),
        k == s.len() || is_space(s[k]),
    ensures
        word_len(s) == k,
    decreases k,
{
    if k > 0 {
        let t = s.drop_first();
        assert forall|i: int| 0 <= i < k - 1 implies !is_space(#[trigger] t[i]) by {
            assert(t[i] == s[i + 1]);
        }
        if k < s.len() {
            assert(t[k - 1] == s[k]);
        }
        lemma_word_len(t, k - 1);
    }
}

/// The bounds within `v` of `first_word(v[lo..hi])`.
pub fn first_word_range(v: &Vec<char>, lo: usize, hi: usize) -> (r: (usize, usize))
    requires
        lo <= hi <= v.len(),
    ensures
        lo <= r.0 <= r.1 <= hi,
        v@.subrange(r.0 as int, r.1 as int) == first_word(v@.subrange(lo as int, hi as int)),
{
    let ghost s = v@.subrange(lo as int, hi as int);
    let mut a = lo;
    while a < hi && char_is_space(v[a])
        invariant
            lo <= a <= hi <= v.len(),
            forall|i: int| lo <= i < a ==> is_space(#[trigger] v@[i]),
        decreases hi - a,
    {
        a += 1;
    }
    proof {
        assert forall|i: int| 0 <= i < a - lo implies is_space(#[trigger] s[i]) by {
            assert(s[i] == v@[lo + i]);
        }
        if a < hi {
            assert(s[a - lo] == v@[a as int]);
        }
        lemma_trim_start_skip(s, a - lo);
    }
    let mut b = a;
    while b < hi && !char_is_space(v[b])
        invariant
            lo <= a <= b <= hi <= v.len(),
            forall|i: int| a <= i < b ==> !is_space(#[trigger] v@[i]),
        decreases hi - b,
    {
        b += 1;
    }
    proof {
        let t = s.skip(a - lo);
        assert(t =~= v@.subrange(a as int, hi as int));
        assert forall|i: int| 0 <= i < b - a implies !is_space(#[trigger] t[i]) by {
            assert(t[i] == v@[a + i]);
        }
        if b < hi {
            assert(t[b - a] == v@[b as int]);
        }
        lemma_word_len(t, b - a);
        assert(t.take(b - a) =~= v@.subrange(a as int, b as int));
    }
    (a, b)
}

// ---------------------------------------------------------------------------
// Decimal numbers
// ---------------------------------------------------------------------------

/// The decimal digits of `n`, without leading zeros, as `Display` writes an unsigned integer.
pub open spec fn decimal(n: nat) -> Seq<char>
    decreases n,
{
    if n < 10 {
        seq![digit_char(n)]
    } else {
        decimal(n / 10).push(digit_char(n % 10))
    }
}

/// Appends the decimal digits of `n` to `out`.
pub fn push_decimal(out: &mut Vec<char>, n: u64)
    ensures
        final(out)@ == old(out)@ + decimal(n as nat),
    decreases n,
{
    if n >= 10 {
        push_decimal(out, n / 10);
    }
    let c = digit_to_char(n % 10);
    out.push(c);
    proof {
        if n >= 10 {
            assert(old(out)@ + decimal(n as nat) =~= old(out)@ + decimal((n / 10) as nat) + seq![c]);
        } else {
            assert(n % 10 == n);
        }
    }
}

/// Why a text is no unsigned integer: the kinds of `core::num::ParseIntError` that
/// unsigned types can give.
#[derive(Debug, Clone, Copy, PartialEq, Eq, Structural)]
pub enum IntErrorKind {
    /// The text is empty.
    Empty,
    /// The text holds a character that is no digit where a digit belongs.
    InvalidDigit,
    /// The number is larger than the type holds.
    PosOverflow,
}

/// Reads the digits `ds` left to right onto `acc`, failing at the first character that is
/// no digit or that takes the number above `max`.
pub open spec fn fold_digits(acc: nat, ds: Seq<char>, max: nat) -> Result<nat, IntErrorKind>
    decreases ds.len(),
{
    if ds.len() == 0 {
        Ok(acc)
    } else if !is_digit(ds[0]) {
        Err(IntErrorKind::InvalidDigit)
    } else if acc * 10 + digit_value(ds[0]) > max {
        Err(IntErrorKind::PosOverflow)
    } else {
        fold_digits(acc * 10 + digit_value(ds[0]), ds.drop_first(), max)
    }
}

/// What `from_str` gives for an unsigned integer type whose largest value is `max`: an
/// optional leading `+`, then decimal digits.
pub open spec fn parse_unsigned(s: Seq<char>, max: nat) -> Result<nat, IntErrorKind> {
    if s.len() == 0 {
        Err(IntErrorKind::Empty)
    } else if s.len() == 1 && (s[0] == '+' || s[0] == '-') {
        Err(IntErrorKind::InvalidDigit)
    } else if s[0] == '+' {
        fold_digits(0, s.drop_first(), max)
    } else {
        fold_digits(0, s, max)
    }
}

proof fn lemma_fold_digits_bound(acc: nat, ds: Seq<char>, max: nat)
    ensures
        fold_digits(acc, ds, max) matches Ok(n) ==> (acc <= max ==> n <= max),
    decreases ds.len(),
{
    if ds.len() > 0 && is_digit(ds[0]) && acc * 10 + digit_value(ds[0]) <= max {
        lemma_fold_digits_bound(acc * 10 + digit_value(ds[0]), ds.drop_first(), max);
    }
}

pub proof fn lemma_digit_char(d: nat)
    requires
        d < 10,
    ensures
        is_digit(digit_char(d)),
        digit_value(digit_char(d)) == d,
        digit_char(d) != '+',
        digit_char(d) != '-',
{
}

proof fn lemma_fold_digits_push(acc: nat, s: Seq<char>, c: char, max: nat)
    ensures
        fold_digits(acc, s.push(c), max) == (match fold_digits(acc, s, max) {
            Ok(a) => if !is_digit(c) {
                Err(IntErrorKind::InvalidDigit)
            } else if a * 10 + digit_value(c) > max {
                Err(IntErrorKind::PosOverflow)
            } else {
                Ok(a * 10 + digit_value(c))
            },
            Err(e) => Err(e),
        }),
    decreases s.len(),
{
    if s.len() == 0 {
        let t = s.push(c);
        assert(t[0] == c);
        assert(t.drop_first() =~= Seq::<char>::empty());
        assert(fold_digits(acc * 10 + digit_value(c), t.drop_first(), max) == Ok::<
            nat,
            IntErrorKind,
        >(acc * 10 + digit_value(c)));
        assert(fold_digits(acc, s, max) == Ok::<nat, IntErrorKind>(acc));
    } else {
        assert(s.push(c)[0] == s[0]);
        assert(s.push(c).drop_first() =~= s.drop_first().push(c));
        if is_digit(s[0]) && acc * 10 + digit_value(s[0]) <= max {
            lemma_fold_digits_push(acc * 10 + digit_value(s[0]), s.drop_first(), c, max);
        }
    }
}

proof fn lemma_fold_decimal(n: nat, max: nat)
    requires
        n <= max,
    ensures
        fold_digits(0, decimal(n), max) == Ok::<nat, IntErrorKind>(n),
        decimal(n).len() >= 1,
        is_digit(decimal(n)[0]),
    decreases n,
{
    if n < 10 {
        lemma_digit_char(n);
        let t = seq![digit_char(n)];
        assert(t[0] == digit_char(n));
        assert(t.drop_first() =~= Seq::<char>::empty());
        assert(fold_digits(n, t.drop_first(), max) == Ok::<nat, IntErrorKind>(n));
        assert(decimal(n) == t);
    } else {
        lemma_fold_decimal(n / 10, max);
        lemma_digit_char(n % 10);
        lemma_fold_digits_push(0, decimal(n / 10), digit_char(n % 10), max);
        assert((n / 10) * 10 + n % 10 == n);
    }
}

/// Every character of `decimal(n)` is a digit, and there is at least one.
pub proof fn lemma_decimal_digits(n: nat)
    ensures
        decimal(n).len() >= 1,
        forall|i: int| 0 <= i < decimal(n).len() ==> is_digit(#[trigger] decimal(n)[i]),
    decreases n,
{
    if n < 10 {
        lemma_digit_char(n);
    } else {
        lemma_decimal_digits(n / 10);
        lemma_digit_char(n % 10);
        let s = decimal(n / 10).push(digit_char(n % 10));
        assert forall|i: int| 0 <= i < s.len() implies is_digit(#[trigger] s[i]) by {
            if i < s.len() - 1 {
                assert(s[i] == decimal(n / 10)[i]);
            }
        }
    }
}

/// The pieces of `a + [sep] + b` around `sep`, where `a` holds no `sep`, are `a` followed by
/// the pieces of `b`.
pub proof fn lemma_split_prefix(a: Seq<char>, sep: char, b: Seq<char>)
    requires
        forall|i: int| 0 <= i < a.len() ==> #[trigger] a[i] != sep,
    ensures
        split(a + seq![sep] + b, sep) == seq![a] + split(b, sep),
{
    let s = a + seq![sep] + b;
    assert forall|i: int| 0 <= i < a.len() implies #[trigger] s[i] != sep by {
        assert(s[i] == a[i]);
    }
    assert(s[a.len() as int] == sep);
    lemma_find_char(s, sep, a.len() as int);
    assert(s.take(a.len() as int) =~= a);
    assert(s.skip(a.len() + 1int) =~= b);
}

/// A text without `sep` is a single piece.
pub proof fn lemma_split_none(a: Seq<char>, sep: char)
    requires
        forall|i: int| 0 <= i < a.len() ==> #[trigger] a[i] != sep,
    ensures
        split(a, sep) == seq![a],
{
    lemma_find_char(a, sep, a.len() as int);
}

/// Reading back the decimal text of a number gives the number: `from_str` undoes
/// `Display` for every value of the type.
pub proof fn lemma_parse_decimal(n: nat, max: nat)
    requires
        n <= max,
    ensures
        parse_unsigned(decimal(n), max) == Ok::<nat, IntErrorKind>(n),
{
    lemma_fold_decimal(n, max);
    if decimal(n).len() == 1 {
        assert(decimal(n)[0] != '+' && decimal(n)[0] != '-');
    }
}

/// A single character reads as a number below ten, if at all.
pub proof fn lemma_parse_one_char(s: Seq<char>, max: nat)
    requires
        s.len() == 1,
    ensures
        parse_unsigned(s, max) matches Ok(n) ==> n < 10,
{
    assert(s.drop_first().len() == 0);
    if is_digit(s[0]) && digit_value(s[0]) <= max {
        assert(fold_digits(digit_value(s[0]), s.drop_first(), max) == Ok::<nat, IntErrorKind>(
            digit_value(s[0]),
        ));
    }
}

/// Reads `v[lo..hi]` as an unsigned integer no larger than `max`, as `from_str` does.
pub fn parse_unsigned_range(v: &Vec<char>, lo: usize, hi: usize, max: u64) -> (r: Result<
    u64,
    IntErrorKind,
>)
    requires
        lo <= hi <= v.len(),
    ensures
        match r {
            Ok(n) => parse_unsigned(v@.subrange(lo as int, hi as int), max as nat) == Ok::<
                nat,
                IntErrorKind,
            >(n as nat),
            Err(e) => parse_unsigned(v@.subrange(lo as int, hi as int), max as nat) == Err::<
                nat,
                IntErrorKind,
            >(e),
        },
        r matches Ok(n) ==> n <= max,
{
    let ghost s = v@.subrange(lo as int, hi as int);
    if hi == lo {
        return Err(IntErrorKind::Empty);
    }
    if hi - lo == 1 && (v[lo] == '+' || v[lo] == '-') {
        return Err(IntErrorKind::InvalidDigit);
    }
    let mut i = if v[lo] == '+' {
        lo + 1
    } else {
        lo
    };
    proof {
        if v[lo as int] == '+' {
            assert(s.drop_first() =~= v@.subrange(i as int, hi as int));
        } else {
            assert(s =~= v@.subrange(i as int, hi as int));
        }
    }
    let ghost start = i;
    let mut acc: u64 = 0;
    while i < hi
        invariant
            lo <= start <= i <= hi <= v.len(),
            s == v@.subrange(lo as int, hi as int),
            acc <= max,
            parse_unsigned(s, max as nat) == fold_digits(
                acc as nat,
                v@.subrange(i as int, hi as int),
                max as nat,
            ),
        decreases hi - i,
    {
        let c = v[i];
        let ghost ds = v@.subrange(i as int, hi as int);
        assert(ds[0] == c);
        if !('0' <= c && c <= '9') {
            return Err(IntErrorKind::InvalidDigit);
        }
        let d = char_to_digit(c);
        let next: u128 = (acc as u128) * 10 + (d as u128);
        if next > max as u128 {
            return Err(IntErrorKind::PosOverflow);
        }
        acc = next as u64;
        i += 1;
        assert(ds.drop_first() =~= v@.subrange(i as int, hi as int));
    }
    Ok(acc)
}

/// What `bool::from_str` accepts: `true` and `false`.
pub open spec fn parse_bool(s: Seq<char>) -> Option<bool> {
    if s == seq!['t', 'r', 'u', 'e'] {
        Some(true)
    } else if s == seq!['f', 'a', 'l', 's', 'e'] {
        Some(false)
    } else {
        None
    }
}

/// The text `bool`'s `Display` writes.
pub open spec fn bool_text(b: bool) -> Seq<char> {
    if b {
        seq!['t', 'r', 'u', 'e']
    } else {
        seq!['f', 'a', 'l', 's', 'e']
    }
}

/// Reads `v[lo..hi]` as a `bool`, as `bool::from_str` does.
pub fn parse_bool_range(v: &Vec<char>, lo: usize, hi: usize) -> (r: Option<bool>)
    requires
        lo <= hi <= v.len(),
    ensures
        r == parse_bool(v@.subrange(lo as int, hi as int)),
{
    let t = vec!['t', 'r', 'u', 'e'];
    let f = vec!['f', 'a', 'l', 's', 'e'];
    assert(t@ =~= seq!['t', 'r', 'u', 'e']);
    assert(f@ =~= seq!['f', 'a', 'l', 's', 'e']);
    if range_equals(v, lo, hi, &t) {
        Some(true)
    } else if range_equals(v, lo, hi, &f) {
        Some(false)
    } else {
        None
    }
}

/// Appends the text of `b` to `out`.
pub fn push_bool(out: &mut Vec<char>, b: bool)
    ensures
        final(out)@ == old(out)@ + bool_text(b),
{
    if b {
        out.push('t');
        out.push('r');
        out.push('u');
        out.push('e');
        assert(final(out)@ =~= old(out)@ + bool_text(b));
    } else {
        out.push('f');
        out.push('a');
        out.push('l');
        out.push('s');
        out.push('e');
        assert(final(out)@ =~= old(out)@ + bool_text(b));
    }
}


// ---------------------------------------------------------------------------
// Facts for reading back what was written
// ---------------------------------------------------------------------------

/// Whether the character `c` stands nowhere in `s`.
pub open spec fn lacks(s: Seq<char>, c: char) -> bool {
    forall|i: int| 0 <= i < s.len() ==> #[trigger] s[i] != c
}

proof fn lemma_find_char_spec(s: Seq<char>, c: char)
    ensures
        find_char(s, c) <= s.len(),
        forall|i: int| 0 <= i < find_char(s, c) ==> #[trigger] s[i] != c,
        find_char(s, c) < s.len() ==> s[find_char(s, c) as int] == c,
    decreases s.len(),
{
    if s.len() > 0 && s[0] != c {
        let t = s.drop_first();
        lemma_find_char_spec(t, c);
        assert forall|i: int| 0 <= i < find_char(s, c) implies #[trigger] s[i] != c by {
            if i > 0 {
                assert(s[i] == t[i - 1]);
            }
        }
        if find_char(s, c) < s.len() {
            assert(s[find_char(s, c) as int] == t[find_char(t, c) as int]);
        }
    }
}

/// The pieces of `x + [sep] + y`, where `y` holds no `sep`, are those of `x` and then `y`.
pub proof fn lemma_split_suffix(x: Seq<char>, sep: char, y: Seq<char>)
    requires
        lacks(y, sep),
    ensures
        split(x + seq![sep] + y, sep) == split(x, sep).push(y),
    decreases x.len(),
{
    let s = x + seq![sep] + y;
    lemma_find_char_spec(x, sep);
    let k = find_char(x, sep);
    if k >= x.len() {
        lemma_split_prefix(x, sep, y);
        lemma_split_none(y, sep);
        lemma_split_none(x, sep);
        assert(seq![x] + seq![y] =~= seq![x].push(y));
    } else {
        assert forall|i: int| 0 <= i < k implies #[trigger] s[i] != sep by {
            assert(s[i] == x[i]);
        }
        assert(s[k as int] == sep);
        lemma_find_char(s, sep, k as int);
        let rest = x.skip(k + 1int);
        assert(s.skip(k + 1int) =~= rest + seq![sep] + y);
        assert(s.take(k as int) =~= x.take(k as int));
        lemma_split_suffix(rest, sep, y);
        assert((seq![x.take(k as int)] + split(rest, sep)).push(y) =~= seq![x.take(k as int)]
            + split(rest, sep).push(y));
    }
}

/// A text that starts and ends with other than white space trims to itself.
pub proof fn lemma_trim_solid(s: Seq<char>)
    requires
        s.len() > 0,
        !is_space(s[0]),
        !is_space(s.last()),
    ensures
        trim(s) == s,
{
    lemma_trim_start_skip(s, 0);
    assert(s.skip(0) =~= s);
    lemma_trim_end_take(s, s.len() as int);
    assert(s.take(s.len() as int) =~= s);
}

proof fn lemma_trim_start_keeps(s: Seq<char>, k: int) -> (m: int)
    requires
        0 <= k < s.len(),
        !is_space(s[k]),
    ensures
        0 <= m < trim_start(s).len(),
        !is_space(trim_start(s)[m]),
    decreases k,
{
    if is_space(s[0]) {
        assert(s.drop_first()[k - 1] == s[k]);
        lemma_trim_start_keeps(s.drop_first(), k - 1)
    } else {
        k
    }
}

proof fn lemma_trim_end_keeps(s: Seq<char>, k: int)
    requires
        0 <= k < s.len(),
        !is_space(s[k]),
    ensures
        trim_end(s).len() > 0,
    decreases s.len(),
{
    if is_space(s.last()) {
        assert(s.drop_last()[k] == s[k]);
        lemma_trim_end_keeps(s.drop_last(), k);
    }
}

/// A text holding a character other than white space does not trim to nothing.
pub proof fn lemma_trim_nonblank(s: Seq<char>, k: int)
    requires
        0 <= k < s.len(),
        !is_space(s[k]),
    ensures
        trim(s).len() > 0,
{
    let m = lemma_trim_start_keeps(s, k);
    lemma_trim_end_keeps(trim_start(s), m);
}

/// Cleaning changes nothing in a text without commas and double quotes.
pub proof fn lemma_clean_plain(s: Seq<char>)
    requires
        lacks(s, ','),
        lacks(s, '"'),
    ensures
        clean(s) == s,
{
    assert(clean(s) =~= s);
}

/// A cleaned text holds no comma and no double quote, and holds no other character that
/// the text lacked.
pub proof fn lemma_clean_lacks(s: Seq<char>, c: char)
    ensures
        clean(s).len() == s.len(),
        lacks(clean(s), ','),
        lacks(clean(s), '"'),
        c != '_' && lacks(s, c) ==> lacks(clean(s), c),
{
    assert forall|i: int| 0 <= i < clean(s).len() implies #[trigger] clean(s)[i] != ',' by {
        assert(clean(s)[i] == clean_char(s[i]));
    }
    assert forall|i: int| 0 <= i < clean(s).len() implies #[trigger] clean(s)[i] != '"' by {
        assert(clean(s)[i] == clean_char(s[i]));
    }
    if c != '_' && lacks(s, c) {
        assert forall|i: int| 0 <= i < clean(s).len() implies #[trigger] clean(s)[i] != c by {
            assert(clean(s)[i] == clean_char(s[i]));
        }
    }
}

/// Trimming keeps only characters of the text.
pub proof fn lemma_trim_lacks(s: Seq<char>, c: char)
    requires
        lacks(s, c),
    ensures
        lacks(trim(s), c),
{
    lemma_trim_start_within(s);
    let u = trim_start(s);
    lemma_trim_end_shape(u);
    assert forall|i: int| 0 <= i < trim(s).len() implies #[trigger] trim(s)[i] != c by {
        assert(trim(s)[i] == u[i]);
        let j = s.len() - u.len() + i;
        assert(u[i] == s[j]);
    }
}

proof fn lemma_trim_start_within(s: Seq<char>)
    ensures
        trim_start(s).len() <= s.len(),
        trim_start(s) == s.skip(s.len() - trim_start(s).len()),
    decreases s.len(),
{
    if s.len() > 0 && is_space(s[0]) {
        lemma_trim_start_within(s.drop_first());
        assert(s.drop_first().skip(s.len() - 1 - trim_start(s).len()) =~= s.skip(
            s.len() - trim_start(s).len(),
        ));
    } else {
        assert(s.skip(0) =~= s);
    }
}

/// Every character of the decimal text of a number is a digit, so neither white space, a
/// comma, a double quote, a line feed nor a carriage return.
pub proof fn lemma_decimal_plain(n: nat)
    ensures
        decimal(n).len() > 0,
        !is_space(decimal(n)[0]),
        !is_space(decimal(n).last()),
        lacks(decimal(n), ','),
        lacks(decimal(n), '"'),
        lacks(decimal(n), '\n'),
        lacks(decimal(n), '\r'),
{
    lemma_decimal_digits(n);
    assert forall|i: int| 0 <= i < decimal(n).len() implies !is_space(#[trigger] decimal(n)[i])
        && decimal(n)[i] != ',' && decimal(n)[i] != '"' && decimal(n)[i] != '\n' && decimal(n)[i]
        != '\r' by {
        assert(is_digit(decimal(n)[i]));
    }
    assert(decimal(n).last() == decimal(n)[decimal(n).len() - 1]);
}


// ---------------------------------------------------------------------------
// Byte positions in UTF-8
// ---------------------------------------------------------------------------

/// The number of bytes of `c` in UTF-8, as `char::len_utf8` gives it.
pub open spec fn utf8_width(c: char) -> nat {
    let u = c as u32;
    if u < 0x80 {
        1
    } else if u < 0x800 {
        2
    } else if u < 0x10000 {
        3
    } else {
        4
    }
}

/// The number of bytes of `s` in UTF-8, as `str::len` gives it.
pub open spec fn byte_len(s: Seq<char>) -> nat
    decreases s.len(),
{
    if s.len() == 0 {
        0
    } else {
        utf8_width(s[0]) + byte_len(s.drop_first())
    }
}

/// `o` with `d` added to the index it holds.
pub open spec fn shift_index(o: Option<int>, d: int) -> Option<int> {
    match o {
        Some(k) => Some(k + d),
        None => None,
    }
}

/// The index of the character of `s` that starts at byte `b` (`s.len()` for the end of
/// `s`), or nothing where `b` is no character boundary of `s`.
pub open spec fn char_at_byte(s: Seq<char>, b: int) -> Option<int>
    decreases s.len(),
{
    if b == 0 {
        Some(0)
    } else if b < 0 || s.len() == 0 {
        None
    } else {
        shift_index(char_at_byte(s.drop_first(), b - utf8_width(s[0])), 1)
    }
}

/// The character that byte `b` of `s` is where it is a whole one-byte (ASCII) character,
/// which is where `&s[b..=b]` does not panic.
pub open spec fn ascii_at(s: Seq<char>, b: int) -> Option<char> {
    match char_at_byte(s, b) {
        Some(k) => if k < s.len() && (s[k] as u32) < 0x80 {
            Some(s[k])
        } else {
            None
        },
        None => None,
    }
}

/// The characters of `&s[b0..b1]`, or nothing where that slice panics: an end that is no
/// character boundary, or a start after the end.
pub open spec fn byte_slice(s: Seq<char>, b0: int, b1: int) -> Option<Seq<char>> {
    match (char_at_byte(s, b0), char_at_byte(s, b1)) {
        (Some(k0), Some(k1)) => if k0 <= k1 {
            Some(s.subrange(k0, k1))
        } else {
            None
        },
        _ => None,
    }
}

proof fn lemma_char_at_byte_bound(s: Seq<char>, b: int)
    ensures
        char_at_byte(s, b) matches Some(k) ==> 0 <= k <= s.len(),
    decreases s.len(),
{
    if b != 0 && b >= 0 && s.len() > 0 {
        lemma_char_at_byte_bound(s.drop_first(), b - utf8_width(s[0]));
    }
}

/// The number of bytes of `c` in UTF-8.
pub fn char_width(c: char) -> (w: u128)
    ensures
        w == utf8_width(c),
{
    let u = c as u32;
    if u < 0x80 {
        1
    } else if u < 0x800 {
        2
    } else if u < 0x10000 {
        3
    } else {
        4
    }
}

/// The number of bytes of `v[lo..hi]` in UTF-8.
pub fn byte_count(v: &Vec<char>, lo: usize, hi: usize) -> (n: u128)
    requires
        lo <= hi <= v.len(),
    ensures
        n == byte_len(v@.subrange(lo as int, hi as int)),
{
    let mut n: u128 = 0;
    let mut i = hi;
    assert(v@.subrange(hi as int, hi as int).len() == 0);
    while i > lo
        invariant
            lo <= i <= hi <= v.len(),
            n == byte_len(v@.subrange(i as int, hi as int)),
            n <= 4 * (hi - i),
        decreases i - lo,
    {
        let w = char_width(v[i - 1]);
        proof {
            let s = v@.subrange(i - 1, hi as int);
            assert(s.drop_first() =~= v@.subrange(i as int, hi as int));
            assert(s[0] == v@[i - 1]);
        }
        n = n + w;
        i -= 1;
    }
    n
}

/// The index within `v` of the character that starts at byte `b` of `v[lo..hi]`, or
/// nothing where `b` is no character boundary there; see [`char_at_byte`].
pub fn char_at_byte_in(v: &Vec<char>, lo: usize, hi: usize, b: u128) -> (r: Option<usize>)
    requires
        lo <= hi <= v.len(),
    ensures
        match char_at_byte(v@.subrange(lo as int, hi as int), b as int) {
            Some(k) => r == Some((lo + k) as usize),
            None => r is None,
        },
{
    let ghost s = v@.subrange(lo as int, hi as int);
    let mut i = lo;
    let mut rem = b;
    assert(v@.subrange(lo as int, hi as int) == s);
    assert(shift_index(char_at_byte(s, b as int), 0) == char_at_byte(s, b as int));
    while rem != 0
        invariant
            lo <= i <= hi <= v.len(),
            s == v@.subrange(lo as int, hi as int),
            char_at_byte(s, b as int) == shift_index(
                char_at_byte(v@.subrange(i as int, hi as int), rem as int),
                i - lo,
            ),
        decreases hi - i,
    {
        let ghost t = v@.subrange(i as int, hi as int);
        if i == hi {
            assert(t.len() == 0);
            return None;
        }
        let w = char_width(v[i]);
        proof {
            assert(t[0] == v@[i as int]);
            assert(t.drop_first() =~= v@.subrange(i + 1, hi as int));
        }
        if w > rem {
            assert(char_at_byte(t.drop_first(), rem - w) is None);
            return None;
        }
        rem = rem - w;
        i += 1;
    }
    proof {
        lemma_char_at_byte_bound(s, b as int);
    }
    Some(i)
}

/// The character at byte `b` of `v[lo..hi]` where it is a one-byte character; see
/// [`ascii_at`].
pub fn ascii_at_in(v: &Vec<char>, lo: usize, hi: usize, b: u128) -> (r: Option<char>)
    requires
        lo <= hi <= v.len(),
    ensures
        r == ascii_at(v@.subrange(lo as int, hi as int), b as int),
{
    let ghost s = v@.subrange(lo as int, hi as int);
    proof {
        lemma_char_at_byte_bound(s, b as int);
    }
    match char_at_byte_in(v, lo, hi, b) {
        None => None,
        Some(k) => {
            if k < hi && (v[k] as u32) < 0x80 {
                assert(s[k - lo] == v@[k as int]);
                Some(v[k])
            } else {
                proof {
                    if k < hi {
                        assert(s[k - lo] == v@[k as int]);
                    }
                }
                None
            }
        },
    }
}

/// Where the characters of `&v[lo..hi][b0..b1]` lie in `v`, or nothing where that slice
/// panics; see [`byte_slice`].
pub fn byte_slice_in(v: &Vec<char>, lo: usize, hi: usize, b0: u128, b1: u128) -> (r: Option<
    (usize, usize),
>)
    requires
        lo <= hi <= v.len(),
    ensures
        match byte_slice(v@.subrange(lo as int, hi as int), b0 as int, b1 as int) {
            Some(t) => r matches Some((x, y)) && lo <= x <= y <= hi && v@.subrange(x as int, y as int)
                == t,
            None => r is None,
        },
{
    let ghost s = v@.subrange(lo as int, hi as int);
    proof {
        lemma_char_at_byte_bound(s, b0 as int);
        lemma_char_at_byte_bound(s, b1 as int);
    }
    match (char_at_byte_in(v, lo, hi, b0), char_at_byte_in(v, lo, hi, b1)) {
        (Some(x), Some(y)) => {
            if x <= y {
                assert(v@.subrange(x as int, y as int) =~= s.subrange(x - lo, y - lo));
                Some((x, y))
            } else {
                None
            }
        },
        _ => None,
    }
}


// ---------------------------------------------------------------------------
// A final line feed
// ---------------------------------------------------------------------------

proof fn lemma_split_last_piece(t: Seq<char>, sep: char)
    ensures
        split(t, sep).len() >= 1,
        exists|k: int|
            0 <= k <= t.len() && split(t, sep).last() == t.skip(k) && (k == 0 || t[k - 1]
                == sep),
    decreases t.len(),
{
    lemma_find_char_spec(t, sep);
    let i = find_char(t, sep);
    if i >= t.len() {
        assert(split(t, sep).last() == t);
        assert(t.skip(0) =~= t);
    } else {
        let u = t.skip(i + 1int);
        lemma_split_last_piece(u, sep);
        let k = choose|k: int|
            0 <= k <= u.len() && split(u, sep).last() == u.skip(k) && (k == 0 || u[k - 1] == sep);
        assert(split(t, sep) == seq![t.take(i as int)] + split(u, sep));
        assert(split(t, sep).last() == split(u, sep).last());
        assert(u.skip(k) =~= t.skip(i + 1 + k));
        if k > 0 {
            assert(u[k - 1] == t[i + k]);
        }
    }
}

/// Where `t` does not end with `sep`, its last piece does not end with `sep` either and is
/// not empty.
proof fn lemma_split_open_end(t: Seq<char>, sep: char)
    requires
        t.len() > 0,
        t.last() != sep,
    ensures
        split(t, sep).len() >= 1,
        split(t, sep).last().len() > 0,
{
    lemma_split_last_piece(t, sep);
    let k = choose|k: int|
        0 <= k <= t.len() && split(t, sep).last() == t.skip(k) && (k == 0 || t[k - 1] == sep);
    if k == t.len() {
        assert(t[k - 1] == t.last());
    }
}

/// Adding a character other than `sep` at the end adds it to the last piece.
pub proof fn lemma_split_push(s: Seq<char>, sep: char, c: char)
    requires
        c != sep,
    ensures
        split(s.push(c), sep) == split(s, sep).drop_last().push(split(s, sep).last().push(c)),
    decreases s.len(),
{
    lemma_find_char_spec(s, sep);
    let i = find_char(s, sep);
    let t = s.push(c);
    if i >= s.len() {
        assert forall|j: int| 0 <= j < t.len() implies #[trigger] t[j] != sep by {
            if j < s.len() {
                assert(t[j] == s[j]);
            }
        }
        lemma_split_none(t, sep);
        lemma_split_none(s, sep);
        assert(seq![s].drop_last().push(s.push(c)) =~= seq![t]);
    } else {
        assert forall|j: int| 0 <= j < i implies #[trigger] t[j] != sep by {
            assert(t[j] == s[j]);
        }
        assert(t[i as int] == sep);
        lemma_find_char(t, sep, i as int);
        let u = s.skip(i + 1int);
        assert(t.skip(i + 1int) =~= u.push(c));
        assert(t.take(i as int) =~= s.take(i as int));
        lemma_split_push(u, sep, c);
        lemma_split_len(u, sep);
        let p = split(u, sep);
        assert(split(s, sep) == seq![s.take(i as int)] + p);
        assert((seq![s.take(i as int)] + p).drop_last() =~= seq![s.take(i as int)] + p.drop_last());
        assert((seq![s.take(i as int)] + p).last() == p.last());
        assert(seq![s.take(i as int)] + p.drop_last().push(p.last().push(c)) =~= (seq![
            s.take(i as int),
        ] + p.drop_last()).push(p.last().push(c)));
    }
}

proof fn lemma_trim_start_push(x: Seq<char>, c: char)
    ensures
        trim_start(x).len() > 0 ==> trim_start(x.push(c)) == trim_start(x).push(c),
        trim_start(x).len() == 0 ==> trim_start(x.push(c)) == trim_start(seq![c]),
    decreases x.len(),
{
    if x.len() == 0 {
        assert(x.push(c) =~= seq![c]);
    } else if is_space(x[0]) {
        assert(x.push(c)[0] == x[0]);
        assert(x.push(c).drop_first() =~= x.drop_first().push(c));
        lemma_trim_start_push(x.drop_first(), c);
    } else {
        assert(x.push(c)[0] == x[0]);
    }
}

/// White space added at the end changes nothing that trimming leaves.
pub proof fn lemma_trim_push_space(x: Seq<char>, c: char)
    requires
        is_space(c),
    ensures
        trim(x.push(c)) == trim(x),
{
    lemma_trim_start_push(x, c);
    if trim_start(x).len() > 0 {
        let y = trim_start(x).push(c);
        assert(y.drop_last() =~= trim_start(x));
    } else {
        assert(seq![c].drop_first().len() == 0);
        assert(trim_start(seq![c]) == trim_start(seq![c].drop_first()));
    }
}

/// A text that does not end with a line feed has the lines it has with one added: the same
/// lines, the last of which now loses a trailing carriage return.
pub proof fn lemma_lines_final_feed(t: Seq<char>)
    requires
        t.len() > 0,
        t.last() != '\n',
    ensures
        lines(t).len() > 0,
        lines(t + seq!['\n']).len() == lines(t).len(),
        forall|i: int|
            0 <= i < lines(t).len() - 1 ==> #[trigger] lines(t + seq!['\n'])[i] == lines(t)[i],
        lines(t + seq!['\n']).last() == strip_cr(lines(t).last()),
{
    let p = split(t, '\n');
    lemma_split_open_end(t, '\n');
    assert(t + seq!['\n'] =~= t + seq!['\n'] + Seq::<char>::empty());
    assert(lacks(Seq::<char>::empty(), '\n'));
    lemma_split_suffix(t, '\n', Seq::<char>::empty());
    let q = split(t + seq!['\n'], '\n');
    assert(q == p.push(Seq::<char>::empty()));
    assert(lines(t).len() == p.len());
    assert(lines(t + seq!['\n']).len() == p.len());
    assert forall|i: int| 0 <= i < lines(t).len() - 1 implies #[trigger] lines(t + seq!['\n'])[i]
        == lines(t)[i] by {
        assert(q[i] == p[i]);
    }
    assert(q[p.len() - 1] == p[p.len() - 1]);
}

} // verus!
