//! The command line: the arguments, the subcommands and the plan of work they ask for.

use vstd::prelude::*;

use crate::text::{chars_equal, chars_of};

verus! {

/// The arguments not yet taken, in order.
pub struct Args {
    items: Vec<String>,
    pos: usize,
}

/// The characters of each string of `v`.
pub open spec fn texts(v: Seq<String>) -> Seq<Seq<char>> {
    v.map_values(|s: String| s@)
}

impl View for Args {
    type V = Seq<Seq<char>>;

    closed spec fn view(&self) -> Seq<Seq<char>> {
        texts(self.items@.skip(self.pos as int))
    }
}

impl Args {
    #[verifier::type_invariant]
    spec fn well_formed(self) -> bool {
        self.pos <= self.items.len()
    }

    /// The arguments `items`, none taken yet.
    pub fn new(items: Vec<String>) -> (a: Args)
        ensures
            a@ == texts(items@),
    {
        let a = Args { items, pos: 0 };
        assert(a.items@.skip(0) =~= a.items@);
        a
    }

    /// Whether no argument is left.
    pub fn is_empty(&self) -> (b: bool)
        ensures
            b == (self@.len() == 0),
    {
        proof {
            use_type_invariant(self);
        }
        self.pos >= self.items.len()
    }

    /// The next argument, without taking it.
    pub fn peek(&self) -> (r: Option<&String>)
        ensures
            match r {
                None => self@.len() == 0,
                Some(s) => self@.len() > 0 && s@ == self@[0],
            },
    {
        proof {
            use_type_invariant(self);
        }
        if self.pos < self.items.len() {
            Some(&self.items[self.pos])
        } else {
            None
        }
    }

    /// Whether the next argument is `word`.
    pub fn next_is(&self, word: &str) -> (b: bool)
        ensures
            b == (self@.len() > 0 && self@[0] == word@),
    {
        match self.peek() {
            None => false,
            Some(s) => {
                let a = chars_of(s.as_str());
                let w = chars_of(word);
                chars_equal(&a, &w)
            },
        }
    }

    /// Takes the next argument.
    pub fn next(&mut self) -> (r: Option<String>)
        ensures
            match r {
                None => old(self)@.len() == 0 && final(self)@ == old(self)@,
                Some(s) => old(self)@.len() > 0 && s@ == old(self)@[0] && final(self)@ == old(
                    self,
                )@.drop_first(),
            },
    {
        proof {
            use_type_invariant(&*self);
        }
        if self.pos < self.items.len() {
            let s = self.items[self.pos].clone();
            let ghost before = self.items@.skip(self.pos as int);
            self.pos = self.pos + 1;
            assert(texts(self.items@.skip(self.pos as int)) =~= texts(before).drop_first());
            Some(s)
        } else {
            None
        }
    }
}


// ---------------------------------------------------------------------------
// Subcommands
// ---------------------------------------------------------------------------

/// The subcommands.
#[derive(Debug, Clone, Copy, PartialEq, Eq, Structural)]
pub enum Action {
    /// Sort lists by frequency.
    Sort,
    /// Sort lists and merge duplicate stations.
    Dedup,
    /// Fetch the current Perseus list and merge it into a list.
    Fetch,
    /// Merge lists into one.
    Merge,
}

/// An argument that names no subcommand.
#[derive(Debug, Clone)]
pub struct ParseActionError {
    pub arg: String,
}

/// Why the command line asks for nothing that can be done.
#[derive(Debug, Clone)]
pub enum CliError {
    /// There is not even the program's name.
    ExpectedApplication,
    /// The word is missing.
    ExpectedWord(String),
    /// The argument is not the word expected; the argument, the word.
    WordsDiffer(String, String),
    /// The subcommand is missing.
    ExpectedAction,
    /// A path is missing where one belongs.
    ExpectedFilePath,
    /// The subcommand is none that exists.
    ParseAction(ParseActionError),
}

/// [`CliError`] with its texts as character sequences.
pub enum CliFault {
    ExpectedApplication,
    ExpectedWord(Seq<char>),
    WordsDiffer(Seq<char>, Seq<char>),
    ExpectedAction,
    ExpectedFilePath,
    ParseAction(Seq<char>),
}

impl View for CliError {
    type V = CliFault;

    open spec fn view(&self) -> CliFault {
        match self {
            CliError::ExpectedApplication => CliFault::ExpectedApplication,
            CliError::ExpectedWord(w) => CliFault::ExpectedWord(w@),
            CliError::WordsDiffer(a, w) => CliFault::WordsDiffer(a@, w@),
            CliError::ExpectedAction => CliFault::ExpectedAction,
            CliError::ExpectedFilePath => CliFault::ExpectedFilePath,
            CliError::ParseAction(e) => CliFault::ParseAction(e.arg@),
        }
    }
}

/// The subcommand `s` names, if any.
pub open spec fn action_named(s: Seq<char>) -> Option<Action> {
    if s == seq!['s', 'o', 'r', 't'] {
        Some(Action::Sort)
    } else if s == seq!['d', 'e', 'd', 'u', 'p'] {
        Some(Action::Dedup)
    } else if s == seq!['m', 'e', 'r', 'g', 'e'] {
        Some(Action::Merge)
    } else if s == seq!['f', 'e', 't', 'c', 'h'] {
        Some(Action::Fetch)
    } else {
        None
    }
}

impl Action {
    /// The subcommand `s` names.
    pub fn from_str(s: &str) -> (r: Result<Action, ParseActionError>)
        ensures
            match r {
                Ok(a) => action_named(s@) == Some(a),
                Err(e) => action_named(s@) is None && e.arg@ == s@,
            },
    {
        let v = chars_of(s);
        let sort = vec!['s', 'o', 'r', 't'];
        let dedup = vec!['d', 'e', 'd', 'u', 'p'];
        let merge = vec!['m', 'e', 'r', 'g', 'e'];
        let fetch = vec!['f', 'e', 't', 'c', 'h'];
        assert(sort@ =~= seq!['s', 'o', 'r', 't']);
        assert(dedup@ =~= seq!['d', 'e', 'd', 'u', 'p']);
        assert(merge@ =~= seq!['m', 'e', 'r', 'g', 'e']);
        assert(fetch@ =~= seq!['f', 'e', 't', 'c', 'h']);
        if chars_equal(&v, &sort) {
            Ok(Action::Sort)
        } else if chars_equal(&v, &dedup) {
            Ok(Action::Dedup)
        } else if chars_equal(&v, &merge) {
            Ok(Action::Merge)
        } else if chars_equal(&v, &fetch) {
            Ok(Action::Fetch)
        } else {
            Err(ParseActionError { arg: crate::text::string_from_chars(v) })
        }
    }

    /// Takes the subcommand from the arguments.
    pub fn expect(args: &mut Args) -> (r: Result<Action, CliError>)
        ensures
            old(args)@.len() == 0 ==> final(args)@ == old(args)@ && (r matches Err(e) && e@
                == CliFault::ExpectedAction),
            old(args)@.len() > 0 ==> final(args)@ == old(args)@.drop_first() && match action_named(
                old(args)@[0],
            ) {
                Some(a) => r == Ok::<Action, CliError>(a),
                None => (r matches Err(e) && e@ == CliFault::ParseAction(old(args)@[0])),
            },
    {
        match args.next() {
            None => Err(CliError::ExpectedAction),
            Some(arg) => match Action::from_str(arg.as_str()) {
                Ok(a) => Ok(a),
                Err(e) => Err(CliError::ParseAction(e)),
            },
        }
    }
}

/// Takes the program's name from the arguments.
pub fn expect_application(args: &mut Args) -> (r: Result<(), CliError>)
    ensures
        old(args)@.len() == 0 ==> final(args)@ == old(args)@ && (r matches Err(e) && e@
            == CliFault::ExpectedApplication),
        old(args)@.len() > 0 ==> final(args)@ == old(args)@.drop_first() && r is Ok,
{
    match args.next() {
        None => Err(CliError::ExpectedApplication),
        Some(_) => Ok(()),
    }
}

/// Takes the word `word` from the arguments.
pub fn expect_word(args: &mut Args, word: &str) -> (r: Result<(), CliError>)
    ensures
        old(args)@.len() == 0 ==> final(args)@ == old(args)@ && (r matches Err(e) && e@
            == CliFault::ExpectedWord(word@)),
        old(args)@.len() > 0 ==> final(args)@ == old(args)@.drop_first() && if old(args)@[0]
            == word@ {
            r is Ok
        } else {
            (r matches Err(e) && e@ == CliFault::WordsDiffer(old(args)@[0], word@))
        },
{
    match args.next() {
        None => Err(CliError::ExpectedWord(crate::text::string_from_chars(chars_of(word)))),
        Some(arg) => {
            let a = chars_of(arg.as_str());
            let w = chars_of(word);
            if chars_equal(&a, &w) {
                Ok(())
            } else {
                Err(CliError::WordsDiffer(arg, crate::text::string_from_chars(w)))
            }
        },
    }
}

// ---------------------------------------------------------------------------
// The plan of work
// ---------------------------------------------------------------------------

/// The word that marks the lists to delete once merged.
pub open spec fn take_word() -> Seq<char> {
    seq!['t', 'a', 'k', 'e']
}

/// The word before the list that receives.
pub open spec fn into_word() -> Seq<char> {
    seq!['i', 'n', 't', 'o']
}

/// What the command line asks to be done, in the order it is to be done.
#[derive(Debug)]
pub enum Plan {
    /// Nothing can be done.
    Fail(CliError),
    /// Sort each list, in order, writing each back in place.
    Sort(Vec<String>),
    /// Sort and merge duplicates in each list, in order, writing each back in place.
    Dedup(Vec<String>),
    /// Read the lists `sources` in order, then fail with the error of `into`, or merge them
    /// into the list at `into`, write it, and delete the sources from `taken_from` on
    /// (all but a source that is the destination itself).
    Merge { sources: Vec<String>, taken_from: Option<usize>, into: Result<String, CliError> },
    /// Fetch the current Perseus list and merge it into the list at `path`; `into_word`
    /// says whether the command line said `into`, which it must where `path` exists.
    Fetch { into_word: bool, path: String },
}

/// [`Plan`] with its texts as character sequences.
pub enum PlanView {
    Fail(CliFault),
    Sort(Seq<Seq<char>>),
    Dedup(Seq<Seq<char>>),
    Merge(Seq<Seq<char>>, Option<int>, Result<Seq<char>, CliFault>),
    Fetch(bool, Seq<char>),
}

/// The view of a path or of the error that stands in its place.
pub open spec fn path_or_fault(r: Result<String, CliError>) -> Result<Seq<char>, CliFault> {
    match r {
        Ok(p) => Ok(p@),
        Err(e) => Err(e@),
    }
}

/// The index `o` holds, as an integer.
pub open spec fn opt_index(o: Option<usize>) -> Option<int> {
    match o {
        Some(i) => Some(i as int),
        None => None,
    }
}

impl View for Plan {
    type V = PlanView;

    open spec fn view(&self) -> PlanView {
        match self {
            Plan::Fail(e) => PlanView::Fail(e@),
            Plan::Sort(v) => PlanView::Sort(texts(v@)),
            Plan::Dedup(v) => PlanView::Dedup(texts(v@)),
            Plan::Merge { sources, taken_from, into } => PlanView::Merge(
                texts(sources@),
                opt_index(*taken_from),
                path_or_fault(*into),
            ),
            Plan::Fetch { into_word, path } => PlanView::Fetch(*into_word, path@),
        }
    }
}

/// The lists to sort or deduplicate: every argument left, of which there must be one.
pub open spec fn paths_plan(rest: Seq<Seq<char>>, dedup: bool) -> PlanView {
    if rest.len() == 0 {
        PlanView::Fail(CliFault::ExpectedFilePath)
    } else if dedup {
        PlanView::Dedup(rest)
    } else {
        PlanView::Sort(rest)
    }
}

/// The rest of a merge, after the first source: further sources, a second `take` (an
/// error), or `into` and the destination.
pub open spec fn merge_tail(
    rest: Seq<Seq<char>>,
    sources: Seq<Seq<char>>,
    taken_from: Option<int>,
) -> PlanView
    decreases rest.len(),
{
    if rest.len() == 0 {
        PlanView::Merge(sources, taken_from, Err(CliFault::ExpectedWord(into_word())))
    } else if rest[0] == into_word() {
        if rest.len() > 1 {
            PlanView::Merge(sources, taken_from, Ok(rest[1]))
        } else {
            PlanView::Merge(sources, taken_from, Err(CliFault::ExpectedFilePath))
        }
    } else if rest[0] == take_word() {
        if taken_from is Some || rest.len() < 2 {
            PlanView::Merge(sources, taken_from, Err(CliFault::ExpectedFilePath))
        } else {
            merge_tail(rest.skip(2), sources.push(rest[1]), Some(sources.len() as int))
        }
    } else {
        merge_tail(rest.drop_first(), sources.push(rest[0]), taken_from)
    }
}

/// A merge: an optional `take`, the first source, then the rest.
pub open spec fn merge_plan(rest: Seq<Seq<char>>) -> PlanView {
    let taking = rest.len() > 0 && rest[0] == take_word();
    let after = if taking {
        rest.drop_first()
    } else {
        rest
    };
    let taken_from = if taking {
        Some(0int)
    } else {
        None
    };
    if after.len() == 0 {
        PlanView::Merge(seq![], taken_from, Err(CliFault::ExpectedFilePath))
    } else {
        merge_tail(after.drop_first(), seq![after[0]], taken_from)
    }
}

/// A fetch: an optional `into`, then the destination.
pub open spec fn fetch_plan(rest: Seq<Seq<char>>) -> PlanView {
    if rest.len() > 0 && rest[0] == into_word() {
        if rest.len() > 1 {
            PlanView::Fetch(true, rest[1])
        } else {
            PlanView::Fail(CliFault::ExpectedFilePath)
        }
    } else if rest.len() > 0 {
        PlanView::Fetch(false, rest[0])
    } else {
        PlanView::Fail(CliFault::ExpectedFilePath)
    }
}

/// What the command line `args` (the program's name first) asks for.
pub open spec fn plan_of(args: Seq<Seq<char>>) -> PlanView {
    if args.len() == 0 {
        PlanView::Fail(CliFault::ExpectedApplication)
    } else if args.len() == 1 {
        PlanView::Fail(CliFault::ExpectedAction)
    } else {
        let rest = args.skip(2);
        match action_named(args[1]) {
            None => PlanView::Fail(CliFault::ParseAction(args[1])),
            Some(Action::Sort) => paths_plan(rest, false),
            Some(Action::Dedup) => paths_plan(rest, true),
            Some(Action::Merge) => merge_plan(rest),
            Some(Action::Fetch) => fetch_plan(rest),
        }
    }
}

/// Takes every argument left.
fn take_rest(args: &mut Args) -> (v: Vec<String>)
    ensures
        texts(v@) == old(args)@,
        final(args)@.len() == 0,
{
    let mut v: Vec<String> = Vec::new();
    let ghost all = args@;
    assert(texts(v@) + args@ =~= all);
    loop
        invariant
            all == texts(v@) + args@,
            all == old(args)@,
        decreases args@.len(),
    {
        let ghost before = texts(v@);
        let ghost left = args@;
        match args.next() {
            None => {
                assert(all =~= texts(v@));
                return v;
            },
            Some(s) => {
                v.push(s);
                assert(texts(v@) =~= before.push(s@));
                assert(all =~= texts(v@) + args@);
            },
        }
    }
}

/// The plan of a merge, from the arguments after `merge`.
fn plan_merge(args: &mut Args) -> (p: Plan)
    ensures
        p@ == merge_plan(old(args)@),
{
    proof {
        reveal_strlit("take");
        reveal_strlit("into");
        assert("take"@ =~= take_word());
        assert("into"@ =~= into_word());
    }
    let ghost rest = args@;
    let mut taken_from: Option<usize> = None;
    let mut sources: Vec<String> = Vec::new();
    if args.next_is("take") {
        let _ = args.next();
        taken_from = Some(0);
    }
    match args.next() {
        None => {
            assert(texts(sources@) =~= seq![]);
            return Plan::Merge { sources, taken_from, into: Err(CliError::ExpectedFilePath) };
        },
        Some(first) => {
            sources.push(first);
        },
    }
    assert(texts(sources@) =~= seq![sources@[0]@]);
    loop
        invariant
            merge_tail(args@, texts(sources@), opt_index(taken_from)) == merge_plan(rest),
            rest == old(args)@,
            "take"@ == take_word(),
            "into"@ == into_word(),
        decreases args@.len(),
    {
        if args.is_empty() {
            let into = Err(CliError::ExpectedWord(crate::text::string_from_chars(chars_of("into"))));
            return Plan::Merge { sources, taken_from, into };
        }
        if args.next_is("into") {
            let _ = args.next();
            let into = match args.next() {
                None => Err(CliError::ExpectedFilePath),
                Some(path) => Ok(path),
            };
            return Plan::Merge { sources, taken_from, into };
        }
        if args.next_is("take") {
            let ghost at = args@;
            let _ = args.next();
            if taken_from.is_some() {
                return Plan::Merge { sources, taken_from, into: Err(CliError::ExpectedFilePath) };
            }
            match args.next() {
                None => {
                    return Plan::Merge {
                        sources,
                        taken_from,
                        into: Err(CliError::ExpectedFilePath),
                    };
                },
                Some(path) => {
                    let ghost before = texts(sources@);
                    taken_from = Some(sources.len());
                    sources.push(path);
                    assert(texts(sources@) =~= before.push(path@));
                    assert(args@ =~= at.skip(2));
                },
            }
        } else {
            match args.next() {
                None => {
                    return Plan::Merge {
                        sources,
                        taken_from,
                        into: Err(CliError::ExpectedFilePath),
                    };
                },
                Some(path) => {
                    let ghost before = texts(sources@);
                    sources.push(path);
                    assert(texts(sources@) =~= before.push(path@));
                },
            }
        }
    }
}

/// The plan of a fetch, from the arguments after `fetch`.
fn plan_fetch(args: &mut Args) -> (p: Plan)
    ensures
        p@ == fetch_plan(old(args)@),
{
    proof {
        reveal_strlit("into");
        assert("into"@ =~= into_word());
    }
    let into_word = args.next_is("into");
    if into_word {
        let _ = args.next();
    }
    match args.next() {
        None => Plan::Fail(CliError::ExpectedFilePath),
        Some(path) => Plan::Fetch { into_word, path },
    }
}

impl Plan {
    /// The plan of work that the command line `args` asks for, the program's name first.
    pub fn from_args(args: Vec<String>) -> (p: Plan)
        ensures
            p@ == plan_of(texts(args@)),
    {
        let ghost all = texts(args@);
        let mut args = Args::new(args);
        if let Err(e) = expect_application(&mut args) {
            return Plan::Fail(e);
        }
        let action = match Action::expect(&mut args) {
            Err(e) => {
                return Plan::Fail(e);
            },
            Ok(a) => a,
        };
        assert(args@ =~= all.skip(2));
        match action {
            Action::Sort => {
                let paths = take_rest(&mut args);
                if paths.len() == 0 {
                    Plan::Fail(CliError::ExpectedFilePath)
                } else {
                    Plan::Sort(paths)
                }
            },
            Action::Dedup => {
                let paths = take_rest(&mut args);
                if paths.len() == 0 {
                    Plan::Fail(CliError::ExpectedFilePath)
                } else {
                    Plan::Dedup(paths)
                }
            },
            Action::Merge => plan_merge(&mut args),
            Action::Fetch => plan_fetch(&mut args),
        }
    }
}


/// Whether a fetch may write its list to a path: only where the command line said `into`
/// or nothing is at the path yet; else the error asks for `into`.
pub fn fetch_may_write(into_word_given: bool, path_exists: bool) -> (r: Result<(), CliError>)
    ensures
        r is Ok <==> (into_word_given || !path_exists),
        r matches Err(e) ==> e@ == CliFault::ExpectedWord(into_word()),
{
    if !into_word_given && path_exists {
        proof {
            reveal_strlit("into");
            assert("into"@ =~= into_word());
        }
        Err(CliError::ExpectedWord(crate::text::string_from_chars(chars_of("into"))))
    } else {
        Ok(())
    }
}


/// Whether `s` holds neither `take` nor `into`.
pub open spec fn plain_words(s: Seq<Seq<char>>) -> bool {
    forall|i: int| 0 <= i < s.len() ==> #[trigger] s[i] != take_word() && s[i] != into_word()
}

proof fn lemma_merge_tail_skips(zs: Seq<Seq<char>>, tail: Seq<Seq<char>>, sources: Seq<Seq<char>>, taken_from: Option<int>)
    requires
        plain_words(zs),
    ensures
        merge_tail(zs + tail, sources, taken_from) == merge_tail(tail, sources + zs, taken_from),
    decreases zs.len(),
{
    if zs.len() == 0 {
        assert(zs + tail =~= tail);
        assert(sources + zs =~= sources);
    } else {
        let rest = zs + tail;
        assert(rest[0] == zs[0]);
        assert(rest.drop_first() =~= zs.drop_first() + tail);
        assert(plain_words(zs.drop_first())) by {
            assert forall|i: int| 0 <= i < zs.drop_first().len() implies #[trigger] zs.drop_first()[i]
                != take_word() && zs.drop_first()[i] != into_word() by {
                assert(zs.drop_first()[i] == zs[i + 1]);
            }
        }
        lemma_merge_tail_skips(zs.drop_first(), tail, sources.push(zs[0]), taken_from);
        assert(sources.push(zs[0]) + zs.drop_first() =~= sources + zs);
    }
}

/// The subcommand word `merge`.
pub open spec fn merge_word() -> Seq<char> {
    seq!['m', 'e', 'r', 'g', 'e']
}

/// `merge` with the lists `xs`, then `take` and the lists `ys`, then `into` and `dest`:
/// every list is read, those after `take` are the ones to delete, and `dest` receives.
pub proof fn lemma_merge_take_into(
    program: Seq<char>,
    xs: Seq<Seq<char>>,
    ys: Seq<Seq<char>>,
    dest: Seq<char>,
)
    requires
        plain_words(xs),
        plain_words(ys),
        ys.len() > 0,
    ensures
        plan_of(seq![program, merge_word()] + xs + seq![take_word()] + ys + seq![into_word(), dest])
            == PlanView::Merge(xs + ys, Some(xs.len() as int), Ok::<Seq<char>, CliFault>(dest)),
{
    let args = seq![program, merge_word()] + xs + seq![take_word()] + ys + seq![into_word(), dest];
    let rest = args.skip(2);
    assert(args[1] == merge_word());
    assert(rest =~= xs + seq![take_word()] + ys + seq![into_word(), dest]);
    let end = seq![into_word(), dest];
    assert(into_word() != take_word());
    if xs.len() == 0 {
        assert(rest[0] == take_word());
        let after = rest.drop_first();
        assert(after =~= ys + end);
        assert(after[0] == ys[0]);
        assert(after.drop_first() =~= ys.drop_first() + end);
        assert(plain_words(ys.drop_first())) by {
            assert forall|i: int| 0 <= i < ys.drop_first().len() implies #[trigger] ys.drop_first()[i]
                != take_word() && ys.drop_first()[i] != into_word() by {
                assert(ys.drop_first()[i] == ys[i + 1]);
            }
        }
        lemma_merge_tail_skips(ys.drop_first(), end, seq![ys[0]], Some(0int));
        assert(seq![ys[0]] + ys.drop_first() =~= xs + ys);
    } else {
        assert(rest[0] == xs[0]);
        assert(xs[0] != take_word());
        let tail = seq![take_word()] + ys + end;
        assert(rest.drop_first() =~= xs.drop_first() + tail);
        assert(plain_words(xs.drop_first())) by {
            assert forall|i: int| 0 <= i < xs.drop_first().len() implies #[trigger] xs.drop_first()[i]
                != take_word() && xs.drop_first()[i] != into_word() by {
                assert(xs.drop_first()[i] == xs[i + 1]);
            }
        }
        lemma_merge_tail_skips(xs.drop_first(), tail, seq![xs[0]], None);
        assert(seq![xs[0]] + xs.drop_first() =~= xs);
        assert(tail[0] == take_word());
        assert(tail.skip(2) =~= ys.drop_first() + end);
        assert(tail[1] == ys[0]);
        assert(plain_words(ys.drop_first())) by {
            assert forall|i: int| 0 <= i < ys.drop_first().len() implies #[trigger] ys.drop_first()[i]
                != take_word() && ys.drop_first()[i] != into_word() by {
                assert(ys.drop_first()[i] == ys[i + 1]);
            }
        }
        lemma_merge_tail_skips(ys.drop_first(), end, xs.push(ys[0]), Some(xs.len() as int));
        assert(xs.push(ys[0]) + ys.drop_first() =~= xs + ys);
    }
    assert(end[0] == into_word() && end[1] == dest);
}

/// `merge` with the lists `xs` and no `take`, then `into` and `dest`: every list is read,
/// none is deleted, and `dest` receives.
pub proof fn lemma_merge_into(program: Seq<char>, xs: Seq<Seq<char>>, dest: Seq<char>)
    requires
        plain_words(xs),
        xs.len() > 0,
    ensures
        plan_of(seq![program, merge_word()] + xs + seq![into_word(), dest]) == PlanView::Merge(
            xs,
            None,
            Ok::<Seq<char>, CliFault>(dest),
        ),
{
    let args = seq![program, merge_word()] + xs + seq![into_word(), dest];
    let rest = args.skip(2);
    let end = seq![into_word(), dest];
    assert(args[1] == merge_word());
    assert(rest =~= xs + end);
    assert(rest[0] == xs[0]);
    assert(rest.drop_first() =~= xs.drop_first() + end);
    assert(plain_words(xs.drop_first())) by {
        assert forall|i: int| 0 <= i < xs.drop_first().len() implies #[trigger] xs.drop_first()[i]
            != take_word() && xs.drop_first()[i] != into_word() by {
            assert(xs.drop_first()[i] == xs[i + 1]);
        }
    }
    lemma_merge_tail_skips(xs.drop_first(), end, seq![xs[0]], None);
    assert(seq![xs[0]] + xs.drop_first() =~= xs);
    assert(end[0] == into_word() && end[1] == dest);
}


/// The indices of the sources of a merge that are deleted once merged: every one from
/// `taken_from` on, of `count` sources.
pub open spec fn taken_from_on(count: int, taken_from: Option<usize>) -> Seq<usize> {
    match taken_from {
        Some(t) => if t <= count {
            Seq::new((count - t) as nat, |i: int| (t + i) as usize)
        } else {
            Seq::empty()
        },
        None => Seq::empty(),
    }
}

/// The indices of the sources of a merge to delete once merged, of `count` sources.
pub fn taken_indices(count: usize, taken_from: Option<usize>) -> (r: Vec<usize>)
    ensures
        r@ == taken_from_on(count as int, taken_from),
{
    let mut r: Vec<usize> = Vec::new();
    match taken_from {
        None => {
            assert(r@ =~= taken_from_on(count as int, taken_from));
        },
        Some(t) => {
            if t <= count {
                let mut i = t;
                while i < count
                    invariant
                        t <= i <= count,
                        r@ =~= Seq::new((i - t) as nat, |k: int| (t + k) as usize),
                    decreases count - i,
                {
                    r.push(i);
                    i += 1;
                }
            }
            assert(r@ =~= taken_from_on(count as int, taken_from));
        },
    }
    r
}


/// The subcommand word `sort`.
pub open spec fn sort_word() -> Seq<char> {
    seq!['s', 'o', 'r', 't']
}

/// The subcommand word `dedup`.
pub open spec fn dedup_word() -> Seq<char> {
    seq!['d', 'e', 'd', 'u', 'p']
}

/// The subcommand word `fetch`.
pub open spec fn fetch_word() -> Seq<char> {
    seq!['f', 'e', 't', 'c', 'h']
}

/// `sort` and `dedup` name every list that follows them, in order, whatever the lists are
/// called; with no list they ask for a path.
pub proof fn lemma_sort_dedup_every_path(program: Seq<char>, xs: Seq<Seq<char>>)
    ensures
        plan_of(seq![program, sort_word()] + xs) == (if xs.len() > 0 {
            PlanView::Sort(xs)
        } else {
            PlanView::Fail(CliFault::ExpectedFilePath)
        }),
        plan_of(seq![program, dedup_word()] + xs) == (if xs.len() > 0 {
            PlanView::Dedup(xs)
        } else {
            PlanView::Fail(CliFault::ExpectedFilePath)
        }),
{
    let a = seq![program, sort_word()] + xs;
    let b = seq![program, dedup_word()] + xs;
    assert(a[1] == sort_word());
    assert(b[1] == dedup_word());
    assert(a.skip(2) =~= xs);
    assert(b.skip(2) =~= xs);
}

/// `fetch`, optionally `into`, then a path: the path is the list to fetch into, whatever
/// follows it, and the plan records whether `into` was given.
pub proof fn lemma_fetch_path(program: Seq<char>, path: Seq<char>, rest: Seq<Seq<char>>)
    requires
        path != into_word(),
    ensures
        plan_of(seq![program, fetch_word(), into_word(), path] + rest) == PlanView::Fetch(
            true,
            path,
        ),
        plan_of(seq![program, fetch_word(), path] + rest) == PlanView::Fetch(false, path),
{
    let a = seq![program, fetch_word(), into_word(), path] + rest;
    let b = seq![program, fetch_word(), path] + rest;
    assert(a[1] == fetch_word());
    assert(b[1] == fetch_word());
    assert(a.skip(2) =~= seq![into_word(), path] + rest);
    assert(b.skip(2) =~= seq![path] + rest);
    assert(a.skip(2)[0] == into_word() && a.skip(2)[1] == path);
    assert(b.skip(2)[0] == path);
}

} // verus!
