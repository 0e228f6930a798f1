//! What holds of every detector, whatever its fragments.
//!
//! A detector before a call and the one after it are told apart by their
//! fragments: `appended` and `removed` give those of the later one. The
//! matcher and every answer follow from the fragments alone, and the
//! fragments from the set that they form.

use crate::detector::{
    alternation_is_valid, append_refusal, appended, classified, invalid_among, removed,
    BotDetector, CompileFailure,
};
use crate::engine::{is_valid_pattern, pattern_matches};
use crate::folding::{fold_all, fold_text};
use crate::fragments::{
    alternation, enclosed, fresh, increasing, join, lemma_fresh, lemma_increasing_unique,
    lemma_with_all, lemma_without_all, with_all, with_fragment, without_all,
};
use crate::lines::{pattern_lines, split_lines};
use vstd::prelude::*;

verus! {

/// Folding a list of one text gives the list of that text folded.
proof fn lemma_fold_one(f: Seq<char>)
    ensures
        fold_all(seq![f]) == seq![fold_text(f)],
{
}

/// A list of one text holds that text and no other.
proof fn lemma_one_contains(g: Seq<char>)
    ensures
        forall|x: Seq<char>| #[trigger] seq![g].contains(x) <==> x == g,
{
    assert(seq![g][0] == g);
}

/// Putting in a list of one fragment is putting in that fragment; and it is
/// new exactly if the set does not hold it.
proof fn lemma_with_one(set: Seq<Seq<char>>, g: Seq<char>)
    ensures
        with_all(set, seq![g]) == with_fragment(set, g),
        set.contains(g) ==> fresh(set, seq![g]) == Seq::<Seq<char>>::empty(),
        !set.contains(g) ==> fresh(set, seq![g]) == seq![g],
{
    reveal_with_fuel(with_all, 2);
    reveal_with_fuel(fresh, 2);
    assert(seq![g].drop_last().len() == 0);
    assert(seq![g].last() == g);
}

/// Two lists that hold the same texts put the same into a set and take the
/// same out of it.
proof fn lemma_same_contents(set: Seq<Seq<char>>, a: Seq<Seq<char>>, b: Seq<Seq<char>>)
    requires
        increasing(set),
        a.to_set() == b.to_set(),
    ensures
        with_all(set, a) == with_all(set, b),
        without_all(set, a) == without_all(set, b),
{
    assert forall|x: Seq<char>| a.contains(x) <==> b.contains(x) by {
        assert(a.to_set().contains(x) == a.contains(x));
        assert(b.to_set().contains(x) == b.contains(x));
    }
    lemma_with_all(set, a);
    lemma_with_all(set, b);
    lemma_increasing_unique(with_all(set, a), with_all(set, b));
    lemma_without_all(set, a);
    lemma_without_all(set, b);
    lemma_increasing_unique(without_all(set, a), without_all(set, b));
}

/// With one fragment the detector answers as that fragment does, enclosed in
/// its group: the alternation of one fragment is that group.
pub proof fn law_single_fragment_decides(f: Seq<char>, input: Seq<char>)
    ensures
        alternation(seq![f]) == enclosed(f),
        classified(seq![f], input) == pattern_matches(enclosed(f), fold_text(input)),
{
}

/// Whether the engine takes the bar between `left` and `right` for a union
/// on `haystack`: whether their alternation matches in it exactly if one of
/// the two does.
pub open spec fn bar_is_union(left: Seq<char>, right: Seq<char>, haystack: Seq<char>) -> bool {
    pattern_matches(left + seq!['|'] + right, haystack) == (pattern_matches(left, haystack)
        || pattern_matches(right, haystack))
}

/// Whether the engine takes each bar in the alternation of `set` for a union
/// on `haystack`: the last one between all that stands before it and the
/// group of the last fragment, and so on towards the first. Each side of each
/// bar is made of whole groups, so that nothing set or opened on one side
/// holds on the other.
pub open spec fn bars_are_unions(set: Seq<Seq<char>>, haystack: Seq<char>) -> bool
    decreases set.len(),
{
    if set.len() <= 1 {
        true
    } else {
        &&& bars_are_unions(set.drop_last(), haystack)
        &&& bar_is_union(join(set.drop_last()), enclosed(set.last()), haystack)
    }
}

/// Whether one of the fragments, enclosed in its group, matches in the folded
/// input.
pub open spec fn some_fragment_matches(set: Seq<Seq<char>>, input: Seq<char>) -> bool {
    exists|i: int|
        0 <= i < set.len() && pattern_matches(enclosed(#[trigger] set[i]), fold_text(input))
}

/// Where the engine takes each bar of the alternation for a union, a detector
/// with fragments answers as its fragments do one by one: an input is a
/// crawler's exactly if one of them matches in it.
pub proof fn law_fragments_decide_where_bars_are_unions(set: Seq<Seq<char>>, input: Seq<char>)
    requires
        set.len() > 0,
        bars_are_unions(set, fold_text(input)),
    ensures
        classified(set, input) == some_fragment_matches(set, input),
    decreases set.len(),
{
    let haystack = fold_text(input);
    if set.len() == 1 {
        assert(some_fragment_matches(set, input) ==> pattern_matches(enclosed(set[0]), haystack));
    } else {
        let head = set.drop_last();
        let last = set.last();
        law_fragments_decide_where_bars_are_unions(head, input);
        assert(some_fragment_matches(set, input) == (some_fragment_matches(head, input)
            || pattern_matches(enclosed(last), haystack))) by {
            if some_fragment_matches(head, input) {
                let i = choose|i: int|
                    0 <= i < head.len() && pattern_matches(enclosed(head[i]), haystack);
                assert(pattern_matches(enclosed(set[i]), haystack));
            }
            if pattern_matches(enclosed(last), haystack) {
                assert(pattern_matches(enclosed(set[set.len() - 1]), haystack));
            }
            if some_fragment_matches(set, input) {
                let i = choose|i: int|
                    0 <= i < set.len() && pattern_matches(enclosed(set[i]), haystack);
                if i < head.len() {
                    assert(pattern_matches(enclosed(head[i]), haystack));
                }
            }
        }
    }
}

/// Detectors that hold the same set of fragments are alike, however they
/// were built: in the sequence of their fragments, in the text of their
/// matcher and in every answer.
pub proof fn law_equal_sets_make_equal_detectors(d: BotDetector, e: BotDetector)
    requires
        d.well_formed(),
        e.well_formed(),
        d@ == e@,
    ensures
        d.fragments() == e.fragments(),
        d.compiled() == e.compiled(),
        forall|input: Seq<char>|
            classified(d.fragments(), input) == classified(#[trigger] e.fragments(), input),
{
    d.lemma_well_formed();
    e.lemma_well_formed();
    assert forall|x: Seq<char>| d.fragments().contains(x) <==> e.fragments().contains(x) by {
        assert(d@.contains(x) == d.fragments().contains(x));
        assert(e@.contains(x) == e.fragments().contains(x));
    }
    lemma_increasing_unique(d.fragments(), e.fragments());
}

/// The order in which fragments are supplied, and how often each, makes no
/// difference to what a call does.
pub proof fn law_order_of_supply_is_irrelevant(
    d: BotDetector,
    first: Seq<Seq<char>>,
    second: Seq<Seq<char>>,
)
    requires
        d.well_formed(),
        first.to_set() == second.to_set(),
    ensures
        appended(d.fragments(), first) == appended(d.fragments(), second),
        removed(d.fragments(), first) == removed(d.fragments(), second),
{
    d.lemma_well_formed();
    assert(fold_all(first).to_set() =~= fold_all(second).to_set()) by {
        assert forall|x: Seq<char>| fold_all(first).contains(x) <==> fold_all(second).contains(
            x,
        ) by {
            if fold_all(first).contains(x) {
                let k = choose|k: int| 0 <= k < first.len() && fold_all(first)[k] == x;
                assert(first.to_set().contains(first[k]));
                assert(second.contains(first[k]));
                let m = choose|m: int| 0 <= m < second.len() && second[m] == first[k];
                assert(fold_all(second)[m] == x);
            }
            if fold_all(second).contains(x) {
                let k = choose|k: int| 0 <= k < second.len() && fold_all(second)[k] == x;
                assert(second.to_set().contains(second[k]));
                assert(first.contains(second[k]));
                let m = choose|m: int| 0 <= m < first.len() && first[m] == second[k];
                assert(fold_all(first)[m] == x);
            }
        }
    }
    lemma_same_contents(d.fragments(), fold_all(first), fold_all(second));
}

/// Without fragments the detector takes the empty input for a crawler, and no
/// other.
pub proof fn law_empty_set_matches_empty_input_only(input: Seq<char>)
    ensures
        classified(Seq::empty(), input) == (input.len() == 0),
{
}

/// The empty text holds no fragment, and a detector can be built from it.
pub proof fn law_empty_text_gives_empty_set()
    ensures
        append_refusal(Seq::empty(), pattern_lines(Seq::empty())) is None,
        appended(Seq::empty(), pattern_lines(Seq::empty())) == Seq::<Seq<char>>::empty(),
{
    reveal(Seq::filter);
    assert(split_lines(Seq::empty()) == Seq::<Seq<char>>::empty());
}

/// Inputs that differ in the case of ASCII letters only are answered alike.
pub proof fn law_case_of_input_is_ignored(set: Seq<Seq<char>>, a: Seq<char>, b: Seq<char>)
    requires
        fold_text(a) == fold_text(b),
    ensures
        classified(set, a) == classified(set, b),
{
    assert(a.len() == fold_text(a).len());
    assert(b.len() == fold_text(b).len());
}

/// Fragments that differ in the case of ASCII letters only are the same
/// fragment to the detector.
pub proof fn law_case_of_fragment_is_ignored(set: Seq<Seq<char>>, f: Seq<char>, g: Seq<char>)
    requires
        fold_text(f) == fold_text(g),
    ensures
        appended(set, seq![f]) == appended(set, seq![g]),
        append_refusal(set, seq![f]) == append_refusal(set, seq![g]),
        removed(set, seq![f]) == removed(set, seq![g]),
{
    lemma_fold_one(f);
    lemma_fold_one(g);
}

/// Appending a fragment that the detector already holds succeeds and changes
/// nothing: not the fragments, not the text of the matcher, no answer.
pub proof fn law_append_present_changes_nothing(d: BotDetector, f: Seq<char>)
    requires
        d.well_formed(),
        d.fragments().contains(fold_text(f)),
    ensures
        append_refusal(d.fragments(), seq![f]) is None,
        appended(d.fragments(), seq![f]) == d.fragments(),
        alternation(appended(d.fragments(), seq![f])) == d.compiled(),
        forall|input: Seq<char>|
            classified(#[trigger] appended(d.fragments(), seq![f]), input) == classified(
                d.fragments(),
                input,
            ),
{
    d.lemma_well_formed();
    lemma_fold_one(f);
    lemma_with_one(d.fragments(), fold_text(f));
    reveal(Seq::filter);
}

/// Removing a fragment that the detector does not hold can be done and
/// changes nothing.
pub proof fn law_remove_absent_changes_nothing(d: BotDetector, f: Seq<char>)
    requires
        d.well_formed(),
        !d.fragments().contains(fold_text(f)),
    ensures
        alternation_is_valid(removed(d.fragments(), seq![f])),
        removed(d.fragments(), seq![f]) == d.fragments(),
        alternation(removed(d.fragments(), seq![f])) == d.compiled(),
        forall|input: Seq<char>|
            classified(#[trigger] removed(d.fragments(), seq![f]), input) == classified(
                d.fragments(),
                input,
            ),
{
    d.lemma_well_formed();
    let set = d.fragments();
    lemma_fold_one(f);
    lemma_one_contains(fold_text(f));
    lemma_without_all(set, seq![fold_text(f)]);
    lemma_increasing_unique(removed(set, seq![f]), set);
}

/// Appending a fragment that the detector does not hold, and then removing
/// it, gives back the fragments as they were; the removal can be done, and
/// the matcher and every answer are as before.
pub proof fn law_append_then_remove_restores(d: BotDetector, f: Seq<char>)
    requires
        d.well_formed(),
        !d.fragments().contains(fold_text(f)),
        append_refusal(d.fragments(), seq![f]) is None,
    ensures
        alternation_is_valid(removed(appended(d.fragments(), seq![f]), seq![f])),
        removed(appended(d.fragments(), seq![f]), seq![f]) == d.fragments(),
        removed(appended(d.fragments(), seq![f]), seq![f]).to_set() == d@,
        alternation(removed(appended(d.fragments(), seq![f]), seq![f])) == d.compiled(),
        forall|input: Seq<char>|
            classified(
                #[trigger] removed(appended(d.fragments(), seq![f]), seq![f]),
                input,
            ) == classified(d.fragments(), input),
{
    d.lemma_well_formed();
    let set = d.fragments();
    let g = fold_text(f);
    lemma_fold_one(f);
    lemma_one_contains(g);
    // What was put in is what leaves again, and the order is ascending
    // throughout.
    lemma_with_all(set, seq![g]);
    lemma_without_all(with_all(set, seq![g]), seq![g]);
    lemma_increasing_unique(removed(appended(set, seq![f]), seq![f]), set);
}

/// Fragments that are regular expressions, all of them, are taken wherever
/// the alternation of the new set compiles, and no refusal names a fragment.
pub proof fn law_valid_fragments_are_taken(d: BotDetector, supplied: Seq<Seq<char>>)
    requires
        d.well_formed(),
        forall|i: int|
            0 <= i < supplied.len() ==> is_valid_pattern(fold_text(#[trigger] supplied[i])),
    ensures
        append_refusal(d.fragments(), supplied) is None <==> alternation_is_valid(
            appended(d.fragments(), supplied),
        ),
        !(append_refusal(d.fragments(), supplied) matches Some(CompileFailure::Fragments(_))),
{
    let news = fresh(d.fragments(), fold_all(supplied));
    let refused = |p: Seq<char>| !is_valid_pattern(p);
    lemma_fresh(d.fragments(), fold_all(supplied));
    if news.filter(refused).len() > 0 {
        news.lemma_filter_pred(refused, 0);
        news.lemma_filter_contains_rev(refused, news.filter(refused)[0]);
        let g = news.filter(refused)[0];
        assert(fold_all(supplied).contains(g));
        let k = choose|k: int| 0 <= k < fold_all(supplied).len() && fold_all(supplied)[k] == g;
        assert(g == fold_text(supplied[k]));
    }
}

/// A new fragment that is no regular expression is refused, and named in the
/// refusal.
pub proof fn law_invalid_fragment_is_refused(d: BotDetector, f: Seq<char>)
    requires
        d.well_formed(),
        !is_valid_pattern(fold_text(f)),
    ensures
        append_refusal(d.fragments(), seq![f]) == Some(
            CompileFailure::Fragments(seq![fold_text(f)]),
        ),
{
    d.lemma_well_formed();
    let set = d.fragments();
    let g = fold_text(f);
    lemma_fold_one(f);
    lemma_with_one(set, g);
    let refused = |p: Seq<char>| !is_valid_pattern(p);
    Seq::<Seq<char>>::empty().lemma_filter_push(g, refused);
    reveal(Seq::filter);
    assert(invalid_among(seq![g]) == seq![g]);
}

} // verus!
