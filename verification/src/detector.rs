//! The detector: a set of fragments together with the one matcher compiled
//! from their alternation.

use crate::engine::{
    compile, is_match, is_valid_pattern, pattern_matches, pattern_of, plainly_compiled, source,
};
use crate::folding::{fold_all, fold_text, is_folded, lemma_all_folded, lower_text};
use crate::fragments::{
    alternation, alternation_text, fresh, fresh_of, increasing, insert_all, join, lemma_fresh,
    lemma_with_all, lemma_without_all, retain_others, with_all, without_all,
};
use crate::lines::{nonblank_lines, pattern_lines};
use regex::Regex;
use vstd::prelude::*;

verus! {

/// Why fragments were refused. The texts in it are in folded form.
#[derive(Debug, PartialEq, Eq)]
pub enum PatternCompileError {
    /// These fragments are no regular expressions. They stand in the order in
    /// which they were supplied, each once.
    Fragments(Vec<String>),
    /// Each fragment is a regular expression, but this alternation of the
    /// whole set does not compile: two fragments give a group the same name,
    /// the whole is larger than the engine allows, or a fragment is nested
    /// as deeply as the engine allows and cannot stand in a group.
    Alternation(String),
}

/// What a `PatternCompileError` holds, as plain sequences.
pub enum CompileFailure {
    /// The fragments that are no regular expressions.
    Fragments(Seq<Seq<char>>),
    /// The alternation that does not compile.
    Alternation(Seq<char>),
}

impl View for PatternCompileError {
    type V = CompileFailure;

    open spec fn view(&self) -> CompileFailure {
        match self {
            PatternCompileError::Fragments(list) => CompileFailure::Fragments(list.deep_view()),
            PatternCompileError::Alternation(text) => CompileFailure::Alternation(text@),
        }
    }
}

/// Those of `fs` that are no regular expressions, in order.
pub open spec fn invalid_among(fs: Seq<Seq<char>>) -> Seq<Seq<char>> {
    fs.filter(|f: Seq<char>| !is_valid_pattern(f))
}

/// Whether the expression for `set` compiles. For the empty set it does.
pub open spec fn alternation_is_valid(set: Seq<Seq<char>>) -> bool {
    set.len() == 0 || is_valid_pattern(join(set))
}

/// What holds of the fragments of every detector: they stand in ascending
/// order, so that none occurs twice; each is in folded form and a regular
/// expression; and the expression for all of them compiles.
pub open spec fn coherent(set: Seq<Seq<char>>) -> bool {
    &&& increasing(set)
    &&& forall|f: Seq<char>| #[trigger] set.contains(f) ==> is_folded(f) && is_valid_pattern(f)
    &&& alternation_is_valid(set)
}

/// The set after `supplied` was appended to `set`.
pub open spec fn appended(set: Seq<Seq<char>>, supplied: Seq<Seq<char>>) -> Seq<Seq<char>> {
    with_all(set, fold_all(supplied))
}

/// Why appending `supplied` to `set` is refused, if it is: the new fragments
/// that are no regular expressions; or, where there is none, the alternation
/// of the whole new set if it does not compile.
pub open spec fn append_refusal(set: Seq<Seq<char>>, supplied: Seq<Seq<char>>) -> Option<
    CompileFailure,
> {
    let bad = invalid_among(fresh(set, fold_all(supplied)));
    if bad.len() > 0 {
        Some(CompileFailure::Fragments(bad))
    } else if !alternation_is_valid(appended(set, supplied)) {
        Some(CompileFailure::Alternation(alternation(appended(set, supplied))))
    } else {
        None
    }
}

/// The set after `supplied` was removed from `set`.
pub open spec fn removed(set: Seq<Seq<char>>, supplied: Seq<Seq<char>>) -> Seq<Seq<char>> {
    without_all(set, fold_all(supplied))
}

/// Whether a detector with the fragments `set` takes `input` for a crawler:
/// whether the alternation of `set`, each fragment enclosed, matches somewhere
/// in the folded input. With no fragment at all, only the empty input is one.
pub open spec fn classified(set: Seq<Seq<char>>, input: Seq<char>) -> bool {
    if set.len() == 0 {
        input.len() == 0
    } else {
        pattern_matches(join(set), fold_text(input))
    }
}

/// Tells crawlers from other clients by their identifier.
#[derive(Debug)]
pub struct BotDetector {
    user_agents_regex: Regex,
    user_agent_patterns: Vec<String>,
}

impl View for BotDetector {
    type V = Set<Seq<char>>;

    /// The fragments as a set.
    open spec fn view(&self) -> Set<Seq<char>> {
        self.fragments().to_set()
    }
}

impl Default for BotDetector {
    /// A detector without fragments.
    fn default() -> (d: Self)
        ensures
            d.fragments() == Seq::<Seq<char>>::empty(),
    {
        let none: Vec<String> = Vec::new();
        match Self::to_regex(&none) {
            Ok(re) => BotDetector { user_agents_regex: re, user_agent_patterns: none },
            Err(_) => vstd::pervasive::unreached(),
        }
    }
}

impl BotDetector {
    /// The fragments, in ascending order.
    pub closed spec fn fragments(&self) -> Seq<Seq<char>> {
        self.user_agent_patterns.deep_view()
    }

    /// The text that the matcher was compiled from.
    pub closed spec fn compiled(&self) -> Seq<char> {
        pattern_of(self.user_agents_regex)
    }

    /// The fragments are coherent, and the matcher is the one compiled from
    /// their alternation.
    #[verifier::type_invariant]
    pub closed spec fn well_formed(&self) -> bool {
        &&& coherent(self.fragments())
        &&& plainly_compiled(self.user_agents_regex)
        &&& self.compiled() == alternation(self.fragments())
    }

    /// What follows for a detector that is `well_formed`, as every detector
    /// that runs is.
    pub proof fn lemma_well_formed(&self)
        requires
            self.well_formed(),
        ensures
            coherent(self.fragments()),
            self.compiled() == alternation(self.fragments()),
    {
    }

    /// A detector for the fragments in `bot_entries`, one on each line that is
    /// not blank. It is as if those lines were appended to a detector without
    /// fragments, and is refused as that would be.
    pub fn new(bot_entries: &str) -> (r: Result<BotDetector, PatternCompileError>)
        ensures
            match r {
                Ok(d) => {
                    &&& append_refusal(Seq::empty(), pattern_lines(bot_entries@)) is None
                    &&& d.fragments() == appended(Seq::empty(), pattern_lines(bot_entries@))
                    &&& d@ == fold_all(pattern_lines(bot_entries@)).to_set()
                },
                Err(e) => append_refusal(Seq::empty(), pattern_lines(bot_entries@)) == Some(e@),
            },
    {
        let folded = Self::parse_lines(bot_entries);
        let none: Vec<String> = Vec::new();
        proof {
            lemma_all_folded(pattern_lines(bot_entries@));
            lemma_with_all(Seq::empty(), folded.deep_view());
            assert(none.deep_view() =~= Seq::<Seq<char>>::empty());
            assert(appended(Seq::empty(), pattern_lines(bot_entries@)).to_set() =~= fold_all(
                pattern_lines(bot_entries@),
            ).to_set());
        }
        Self::extended(&none, &folded)
    }

    /// Puts `fragments`, folded, into the set, and compiles the matcher anew.
    /// One that the set holds already is passed over.
    ///
    /// Where a new fragment is no regular expression, or the alternation of
    /// all does not compile, the call is refused and nothing changes.
    pub fn append(&mut self, fragments: &[&str]) -> (r: Result<(), PatternCompileError>)
        ensures
            match r {
                Ok(()) => {
                    &&& append_refusal(old(self).fragments(), fragments.deep_view()) is None
                    &&& final(self).fragments() == appended(
                        old(self).fragments(),
                        fragments.deep_view(),
                    )
                    &&& final(self)@ == old(self)@.union(fold_all(fragments.deep_view()).to_set())
                },
                Err(e) => {
                    &&& append_refusal(old(self).fragments(), fragments.deep_view()) == Some(e@)
                    &&& *final(self) == *old(self)
                },
            },
    {
        proof {
            use_type_invariant(&*self);
            lemma_all_folded(fragments.deep_view());
            lemma_with_all(self.fragments(), fold_all(fragments.deep_view()));
            assert(appended(self.fragments(), fragments.deep_view()).to_set()
                =~= self.fragments().to_set().union(fold_all(fragments.deep_view()).to_set()));
        }
        let folded = fold_each(fragments);
        match Self::extended(&self.user_agent_patterns, &folded) {
            Ok(d) => {
                *self = d;
                Ok(())
            },
            Err(e) => Err(e),
        }
    }

    /// Takes `fragments`, folded, out of the set, and compiles the matcher anew.
    /// One that the set does not hold is passed over.
    ///
    /// The alternation of what is left must compile. No proof here knows of
    /// the engine that what compiles with more fragments compiles with fewer:
    /// `try_remove` asks for nothing and finds out.
    pub fn remove(&mut self, fragments: &[&str])
        requires
            alternation_is_valid(removed(old(self).fragments(), fragments.deep_view())),
        ensures
            final(self).fragments() == removed(old(self).fragments(), fragments.deep_view()),
            final(self)@ == old(self)@.difference(fold_all(fragments.deep_view()).to_set()),
    {
        proof {
            use_type_invariant(&*self);
        }
        let folded = fold_each(fragments);
        let rest = retain_others(&self.user_agent_patterns, &folded);
        proof {
            lemma_without_all(self.fragments(), folded.deep_view());
            assert(rest.deep_view().to_set() =~= self.fragments().to_set().difference(
                folded.deep_view().to_set(),
            ));
        }
        match Self::to_regex(&rest) {
            Ok(re) => {
                *self = BotDetector { user_agents_regex: re, user_agent_patterns: rest };
            },
            Err(_) => vstd::pervasive::unreached(),
        }
    }

    /// `remove`, where the alternation of what is left compiles. Where it does
    /// not, nothing changes. Says which happened.
    pub fn try_remove(&mut self, fragments: &[&str]) -> (done: bool)
        ensures
            done == alternation_is_valid(removed(old(self).fragments(), fragments.deep_view())),
            done ==> final(self).fragments() == removed(
                old(self).fragments(),
                fragments.deep_view(),
            ),
            done ==> final(self)@ == old(self)@.difference(
                fold_all(fragments.deep_view()).to_set(),
            ),
            !done ==> *final(self) == *old(self),
    {
        let folded = fold_each(fragments);
        let rest = retain_others(&self.user_agent_patterns, &folded);
        match Self::to_regex(&rest) {
            Ok(_) => {
                self.remove(fragments);
                true
            },
            Err(_) => false,
        }
    }

    /// Whether `user_agent` is a crawler's identifier: whether the matcher
    /// finds a match somewhere in it, once folded.
    pub fn check_bot(&self, user_agent: &str) -> (b: bool)
        ensures
            b == classified(self.fragments(), user_agent@),
            b == pattern_matches(alternation(self.fragments()), fold_text(user_agent@)),
    {
        proof {
            use_type_invariant(self);
        }
        let folded = lower_text(user_agent);
        is_match(&self.user_agents_regex, folded.as_str())
    }

    /// The fragments, as they are kept: folded, in ascending order.
    pub fn patterns(&self) -> (list: Vec<String>)
        ensures
            list.deep_view() == self.fragments(),
    {
        copy_of(&self.user_agent_patterns)
    }

    /// The text that the matcher was compiled from.
    pub fn expression(&self) -> (text: String)
        ensures
            text@ == self.compiled(),
            text@ == alternation(self.fragments()),
    {
        proof {
            use_type_invariant(self);
        }
        source(&self.user_agents_regex).to_owned()
    }

    /// The fragments on the lines of `bot_regex_entries`, folded.
    fn parse_lines(bot_regex_entries: &str) -> (folded: Vec<String>)
        ensures
            folded.deep_view() == fold_all(pattern_lines(bot_regex_entries@)),
    {
        let lines = nonblank_lines(bot_regex_entries);
        fold_lines(&lines)
    }

    /// The matcher for `regex_entries`.
    fn to_regex(regex_entries: &Vec<String>) -> (r: Result<Regex, PatternCompileError>)
        ensures
            match r {
                Ok(re) => {
                    &&& alternation_is_valid(regex_entries.deep_view())
                    &&& plainly_compiled(re)
                    &&& pattern_of(re) == alternation(regex_entries.deep_view())
                },
                Err(e) => {
                    &&& !alternation_is_valid(regex_entries.deep_view())
                    &&& e@ == CompileFailure::Alternation(alternation(regex_entries.deep_view()))
                },
            },
    {
        let pattern = alternation_text(regex_entries);
        match compile(pattern.as_str()) {
            Ok(re) => Ok(re),
            Err(_) => Err(PatternCompileError::Alternation(pattern)),
        }
    }

    /// The detector for `set` with `folded` put into it, or why there is none.
    fn extended(set: &Vec<String>, folded: &Vec<String>) -> (r: Result<
        BotDetector,
        PatternCompileError,
    >)
        requires
            increasing(set.deep_view()),
            forall|f: Seq<char>|
                #[trigger] set.deep_view().contains(f) ==> is_folded(f) && is_valid_pattern(f),
            forall|f: Seq<char>| #[trigger] folded.deep_view().contains(f) ==> is_folded(f),
        ensures
            match r {
                Ok(d) => {
                    &&& invalid_among(fresh(set.deep_view(), folded.deep_view())).len() == 0
                    &&& alternation_is_valid(with_all(set.deep_view(), folded.deep_view()))
                    &&& d.fragments() == with_all(set.deep_view(), folded.deep_view())
                },
                Err(e) => {
                    let bad = invalid_among(fresh(set.deep_view(), folded.deep_view()));
                    let all = with_all(set.deep_view(), folded.deep_view());
                    if bad.len() > 0 {
                        e@ == CompileFailure::Fragments(bad)
                    } else {
                        &&& !alternation_is_valid(all)
                        &&& e@ == CompileFailure::Alternation(alternation(all))
                    }
                },
            },
    {
        let news = fresh_of(set, folded);
        let bad = invalid_fragments(&news);
        if bad.len() > 0 {
            return Err(PatternCompileError::Fragments(bad));
        }
        let mut all = copy_of(set);
        insert_all(&mut all, folded);
        proof {
            lemma_with_all(set.deep_view(), folded.deep_view());
            lemma_fresh(set.deep_view(), folded.deep_view());
            assert forall|f: Seq<char>| #[trigger] all.deep_view().contains(f) implies is_folded(f)
                && is_valid_pattern(f) by {
                if !set.deep_view().contains(f) {
                    assert(news.deep_view().contains(f));
                }
            }
        }
        match Self::to_regex(&all) {
            Ok(re) => Ok(BotDetector { user_agents_regex: re, user_agent_patterns: all }),
            Err(e) => Err(e),
        }
    }
}

/// A copy of `list`.
fn copy_of(list: &Vec<String>) -> (copy: Vec<String>)
    ensures
        copy.deep_view() == list.deep_view(),
{
    let mut copy: Vec<String> = Vec::new();
    let mut i: usize = 0;
    while i < list.len()
        invariant
            i <= list.len(),
            copy.deep_view() == list.deep_view().take(i as int),
        decreases list.len() - i,
    {
        proof {
            assert(list.deep_view().take(i + 1) == list.deep_view().take(i as int).push(
                list[i as int]@,
            ));
        }
        copy.push(list[i].clone());
        i += 1;
    }
    copy
}

/// Each of `fragments`, folded.
fn fold_each(fragments: &[&str]) -> (folded: Vec<String>)
    ensures
        folded.deep_view() == fold_all(fragments.deep_view()),
{
    let mut folded: Vec<String> = Vec::new();
    let mut i: usize = 0;
    while i < fragments.len()
        invariant
            i <= fragments.len(),
            folded.deep_view() == fold_all(fragments.deep_view()).take(i as int),
        decreases fragments.len() - i,
    {
        proof {
            assert(fold_all(fragments.deep_view()).take(i + 1) == fold_all(
                fragments.deep_view(),
            ).take(i as int).push(fold_text(fragments[i as int]@)));
        }
        folded.push(lower_text(fragments[i]));
        i += 1;
    }
    assert(fold_all(fragments.deep_view()).take(fragments.len() as int) == fold_all(
        fragments.deep_view(),
    ));
    folded
}

/// Each of `lines`, folded.
fn fold_lines(lines: &Vec<String>) -> (folded: Vec<String>)
    ensures
        folded.deep_view() == fold_all(lines.deep_view()),
{
    let mut folded: Vec<String> = Vec::new();
    let mut i: usize = 0;
    while i < lines.len()
        invariant
            i <= lines.len(),
            folded.deep_view() == fold_all(lines.deep_view()).take(i as int),
        decreases lines.len() - i,
    {
        proof {
            assert(fold_all(lines.deep_view()).take(i + 1) == fold_all(lines.deep_view()).take(
                i as int,
            ).push(fold_text(lines[i as int]@)));
        }
        folded.push(lower_text(lines[i].as_str()));
        i += 1;
    }
    folded
}

/// Those of `news` that the engine refuses.
fn invalid_fragments(news: &Vec<String>) -> (bad: Vec<String>)
    ensures
        bad.deep_view() == invalid_among(news.deep_view()),
        bad.len() == 0 ==> forall|f: Seq<char>|
            #[trigger] news.deep_view().contains(f) ==> is_valid_pattern(f),
{
    let ghost all = news.deep_view();
    let ghost refused = |f: Seq<char>| !is_valid_pattern(f);
    let mut bad: Vec<String> = Vec::new();
    let mut i: usize = 0;
    proof {
        reveal(Seq::filter);
    }
    while i < news.len()
        invariant
            i <= news.len(),
            all == news.deep_view(),
            refused == |f: Seq<char>| !is_valid_pattern(f),
            bad.deep_view() == all.take(i as int).filter(refused),
            bad.len() == 0 ==> forall|k: int| 0 <= k < i ==> is_valid_pattern(#[trigger] all[k]),
        decreases news.len() - i,
    {
        proof {
            assert(all.take(i + 1) == all.take(i as int).push(news[i as int]@));
            all.take(i as int).lemma_filter_push(news[i as int]@, refused);
        }
        match compile(news[i].as_str()) {
            Ok(_) => {},
            Err(_) => {
                bad.push(news[i].clone());
            },
        }
        i += 1;
    }
    assert(all.take(news.len() as int) == all);
    bad
}

} // verus!
