//! The set of fragments and the expression built from it.
//!
//! The set is kept as a sequence in ascending order, so that a set has one
//! sequence and one expression, however it was built. In the expression each
//! fragment stands in a group of its own: what a fragment sets or opens ends
//! with the fragment.

use crate::engine::{compile, is_valid_pattern, match_empty_only};
use crate::text::chars_of;
use vstd::prelude::*;
use vstd::seq_lib::lemma_seq_contains_after_push;
use vstd::string::StringExecFns;

verus! {

/// Whether `a` stands before `b`: at the first place where they differ `a`
/// has the smaller character, or `a` ends there and `b` goes on.
pub open spec fn precedes(a: Seq<char>, b: Seq<char>) -> bool
    decreases a.len(),
{
    if b.len() == 0 {
        false
    } else if a.len() == 0 {
        true
    } else if a[0] != b[0] {
        a[0] < b[0]
    } else {
        precedes(a.drop_first(), b.drop_first())
    }
}

/// Whether each fragment stands before all that follow it.
pub open spec fn increasing(set: Seq<Seq<char>>) -> bool {
    forall|i: int, j: int| 0 <= i < j < set.len() ==> precedes(#[trigger] set[i], #[trigger] set[j])
}

/// Where `f` belongs in `set`: behind the fragments at its beginning that
/// stand before `f`.
pub open spec fn position(set: Seq<Seq<char>>, f: Seq<char>) -> int
    decreases set.len(),
{
    if set.len() == 0 || !precedes(set[0], f) {
        0
    } else {
        1 + position(set.drop_first(), f)
    }
}

/// `set` with `f` in it: at its place where it is new, nowhere where it is
/// already there.
pub open spec fn with_fragment(set: Seq<Seq<char>>, f: Seq<char>) -> Seq<Seq<char>> {
    if set.contains(f) {
        set
    } else {
        set.insert(position(set, f), f)
    }
}

/// `set` with each of `fs` in it.
pub open spec fn with_all(set: Seq<Seq<char>>, fs: Seq<Seq<char>>) -> Seq<Seq<char>>
    decreases fs.len(),
{
    if fs.len() == 0 {
        set
    } else {
        with_fragment(with_all(set, fs.drop_last()), fs.last())
    }
}

/// The fragments of `fs` that are new to `set`, each once, in the order of
/// their first occurrence in `fs`.
pub open spec fn fresh(set: Seq<Seq<char>>, fs: Seq<Seq<char>>) -> Seq<Seq<char>>
    decreases fs.len(),
{
    if fs.len() == 0 {
        Seq::empty()
    } else if set.contains(fs.last()) || fresh(set, fs.drop_last()).contains(fs.last()) {
        fresh(set, fs.drop_last())
    } else {
        fresh(set, fs.drop_last()).push(fs.last())
    }
}

/// `set` without any of `fs`, the order of the others kept.
pub open spec fn without_all(set: Seq<Seq<char>>, fs: Seq<Seq<char>>) -> Seq<Seq<char>> {
    set.filter(|p: Seq<char>| !fs.contains(p))
}

/// The fragment in a group that captures nothing: `(?:`, the fragment, `)`.
pub open spec fn grouped(f: Seq<char>) -> Seq<char> {
    seq!['(', '?', ':'] + f + seq![')']
}

/// The same group with its closing bracket on a line of its own: `(?:`, the
/// fragment, a line feed, `)`.
pub open spec fn grouped_on_new_line(f: Seq<char>) -> Seq<char> {
    seq!['(', '?', ':'] + f + seq!['\n', ')']
}

/// The fragment in a group of its own: the plain group where that is a
/// regular expression, else the group that closes on a new line.
///
/// The plain group of a regular expression is none where the fragment ends in
/// a comment, as the verbose option allows: the comment takes in the closing
/// bracket. The line feed ends the comment; the verbose option, still in
/// force there, has the line feed count for nothing.
pub open spec fn enclosed(f: Seq<char>) -> Seq<char> {
    if is_valid_pattern(grouped(f)) {
        grouped(f)
    } else {
        grouped_on_new_line(f)
    }
}

/// The fragments, each enclosed, with a `|` between each two neighbours.
pub open spec fn join(frags: Seq<Seq<char>>) -> Seq<char>
    decreases frags.len(),
{
    if frags.len() == 0 {
        Seq::empty()
    } else if frags.len() == 1 {
        enclosed(frags[0])
    } else {
        join(frags.drop_last()) + seq!['|'] + enclosed(frags.last())
    }
}

/// The expression for a set of fragments: the alternation of the fragments,
/// each enclosed; or, for the empty set, the expression that matches the
/// empty text only.
pub open spec fn alternation(frags: Seq<Seq<char>>) -> Seq<char> {
    if frags.len() == 0 {
        match_empty_only()
    } else {
        join(frags)
    }
}

/// No text stands before itself.
pub proof fn lemma_precedes_irreflexive(a: Seq<char>)
    ensures
        !precedes(a, a),
    decreases a.len(),
{
    if a.len() > 0 {
        lemma_precedes_irreflexive(a.drop_first());
    }
}

/// What stands before a text stands before all that this text stands before.
pub proof fn lemma_precedes_transitive(a: Seq<char>, b: Seq<char>, c: Seq<char>)
    requires
        precedes(a, b),
        precedes(b, c),
    ensures
        precedes(a, c),
    decreases a.len(),
{
    if a.len() > 0 && a[0] == b[0] && b[0] == c[0] {
        lemma_precedes_transitive(a.drop_first(), b.drop_first(), c.drop_first());
    }
}

/// Of two different texts one stands before the other.
pub proof fn lemma_precedes_total(a: Seq<char>, b: Seq<char>)
    requires
        a != b,
    ensures
        precedes(a, b) || precedes(b, a),
    decreases a.len(),
{
    if a.len() > 0 && b.len() > 0 && a[0] == b[0] {
        if a.drop_first() == b.drop_first() {
            assert(a =~= seq![a[0]] + a.drop_first());
            assert(b =~= seq![b[0]] + b.drop_first());
        }
        lemma_precedes_total(a.drop_first(), b.drop_first());
    } else if a.len() == 0 && b.len() == 0 {
        assert(a =~= b);
    }
}

/// `position` lies within the set, all before it stand before `f`, and the
/// fragment at it does not.
pub proof fn lemma_position(set: Seq<Seq<char>>, f: Seq<char>)
    ensures
        0 <= position(set, f) <= set.len(),
        forall|k: int| 0 <= k < position(set, f) ==> precedes(#[trigger] set[k], f),
        position(set, f) < set.len() ==> !precedes(set[position(set, f)], f),
    decreases set.len(),
{
    if set.len() == 0 || !precedes(set[0], f) {
    } else {
        let rest = set.drop_first();
        lemma_position(rest, f);
        assert forall|k: int| 0 <= k < position(set, f) implies precedes(#[trigger] set[k], f) by {
            if k > 0 {
                assert(set[k] == rest[k - 1]);
            }
        }
    }
}

/// The first place whose fragment does not stand before `f`, all before it
/// doing so, is `position`.
pub proof fn lemma_position_is(set: Seq<Seq<char>>, f: Seq<char>, n: int)
    requires
        0 <= n <= set.len(),
        forall|k: int| 0 <= k < n ==> precedes(#[trigger] set[k], f),
        n < set.len() ==> !precedes(set[n], f),
    ensures
        position(set, f) == n,
{
    lemma_position(set, f);
    if position(set, f) < n {
        assert(precedes(set[position(set, f)], f));
    }
}

/// In ascending order nothing occurs twice.
pub proof fn lemma_increasing_distinct(set: Seq<Seq<char>>)
    requires
        increasing(set),
    ensures
        set.no_duplicates(),
{
    assert forall|i: int, j: int| 0 <= i < set.len() && 0 <= j < set.len() && i != j implies set[i]
        != set[j] by {
        lemma_precedes_irreflexive(set[i]);
        if i < j {
            assert(precedes(set[i], set[j]));
        } else {
            assert(precedes(set[j], set[i]));
        }
    }
}

/// `with_fragment` holds what `set` holds and `f`, and keeps the ascending
/// order.
pub proof fn lemma_with_fragment(set: Seq<Seq<char>>, f: Seq<char>)
    ensures
        forall|x: Seq<char>|
            #![trigger with_fragment(set, f).contains(x)]
            with_fragment(set, f).contains(x) <==> set.contains(x) || x == f,
        increasing(set) ==> increasing(with_fragment(set, f)),
{
    let all = with_fragment(set, f);
    if !set.contains(f) {
        let p = position(set, f);
        lemma_position(set, f);
        assert forall|x: Seq<char>| #![trigger all.contains(x)] all.contains(x) <==> set.contains(x)
            || x == f by {
            if all.contains(x) {
                let k = choose|k: int| 0 <= k < all.len() && all[k] == x;
                if k < p {
                    assert(set[k] == x);
                } else if k > p {
                    assert(set[k - 1] == x);
                }
            }
            if set.contains(x) {
                let k = choose|k: int| 0 <= k < set.len() && set[k] == x;
                if k < p {
                    assert(all[k] == x);
                } else {
                    assert(all[k + 1] == x);
                }
            }
            assert(all[p] == f);
        }
        if increasing(set) {
            assert forall|i: int, j: int| 0 <= i < j < all.len() implies precedes(
                #[trigger] all[i],
                #[trigger] all[j],
            ) by {
                if j < p {
                    assert(all[i] == set[i] && all[j] == set[j]);
                } else if j == p {
                    assert(all[i] == set[i]);
                } else if i > p {
                    assert(all[i] == set[i - 1] && all[j] == set[j - 1]);
                } else {
                    // The fragment at the place of `f` does not stand before
                    // `f` and is not `f`, so `f` stands before it and before
                    // all behind it.
                    assert(all[j] == set[j - 1]);
                    assert(set.contains(set[p]));
                    lemma_precedes_total(f, set[p]);
                    if j - 1 > p {
                        assert(precedes(set[p], set[j - 1]));
                        lemma_precedes_transitive(f, set[p], set[j - 1]);
                    }
                    if i < p {
                        assert(all[i] == set[i]);
                        lemma_precedes_transitive(set[i], f, set[j - 1]);
                    }
                }
            }
        }
    }
}

/// `with_all` holds what `set` holds and `fs`, and keeps the ascending order.
pub proof fn lemma_with_all(set: Seq<Seq<char>>, fs: Seq<Seq<char>>)
    ensures
        forall|x: Seq<char>|
            #![trigger with_all(set, fs).contains(x)]
            with_all(set, fs).contains(x) <==> set.contains(x) || fs.contains(x),
        increasing(set) ==> increasing(with_all(set, fs)),
    decreases fs.len(),
{
    let all = with_all(set, fs);
    if fs.len() > 0 {
        let before = with_all(set, fs.drop_last());
        let f = fs.last();
        lemma_with_all(set, fs.drop_last());
        lemma_with_fragment(before, f);
        assert(fs == fs.drop_last().push(f));
        assert forall|x: Seq<char>| #![trigger all.contains(x)] all.contains(x) <==> set.contains(x)
            || fs.contains(x) by {
            lemma_seq_contains_after_push(fs.drop_last(), f, x);
        }
    }
}

/// `fresh` holds what `fs` holds and `set` does not, nothing twice.
pub proof fn lemma_fresh(set: Seq<Seq<char>>, fs: Seq<Seq<char>>)
    ensures
        forall|x: Seq<char>|
            #![trigger fresh(set, fs).contains(x)]
            fresh(set, fs).contains(x) <==> fs.contains(x) && !set.contains(x),
        fresh(set, fs).no_duplicates(),
    decreases fs.len(),
{
    let news = fresh(set, fs);
    if fs.len() > 0 {
        let before = fresh(set, fs.drop_last());
        let f = fs.last();
        lemma_fresh(set, fs.drop_last());
        assert(fs == fs.drop_last().push(f));
        assert forall|x: Seq<char>| #![trigger news.contains(x)] news.contains(x) <==> fs.contains(
            x,
        ) && !set.contains(x) by {
            lemma_seq_contains_after_push(fs.drop_last(), f, x);
            lemma_seq_contains_after_push(before, f, x);
        }
    }
}

/// `without_all` holds what `set` holds and `fs` does not, and keeps the
/// ascending order.
pub proof fn lemma_without_all(set: Seq<Seq<char>>, fs: Seq<Seq<char>>)
    ensures
        without_all(set, fs).len() <= set.len(),
        forall|x: Seq<char>|
            #![trigger without_all(set, fs).contains(x)]
            without_all(set, fs).contains(x) <==> set.contains(x) && !fs.contains(x),
        increasing(set) ==> increasing(without_all(set, fs)),
    decreases set.len(),
{
    let keep = |p: Seq<char>| !fs.contains(p);
    let rest = without_all(set, fs);
    reveal(Seq::filter);
    if set.len() > 0 {
        let head = set.drop_last();
        let last = set.last();
        let sub = without_all(head, fs);
        lemma_without_all(head, fs);
        assert(set == head.push(last));
        assert forall|x: Seq<char>| #![trigger rest.contains(x)] rest.contains(x) <==> set.contains(
            x,
        ) && !fs.contains(x) by {
            lemma_seq_contains_after_push(head, last, x);
            lemma_seq_contains_after_push(sub, last, x);
        }
        if increasing(set) {
            assert(increasing(head));
            if keep(last) {
                assert forall|i: int, j: int| 0 <= i < j < rest.len() implies precedes(
                    #[trigger] rest[i],
                    #[trigger] rest[j],
                ) by {
                    if j < sub.len() {
                        assert(rest[i] == sub[i] && rest[j] == sub[j]);
                    } else {
                        assert(rest[i] == sub[i]);
                        assert(sub.contains(sub[i]));
                        let k = choose|k: int| 0 <= k < head.len() && head[k] == sub[i];
                        assert(precedes(set[k], set[set.len() - 1]));
                    }
                }
            }
        }
    }
}

/// Two sequences in ascending order that hold the same fragments are the same
/// sequence.
pub proof fn lemma_increasing_unique(a: Seq<Seq<char>>, b: Seq<Seq<char>>)
    requires
        increasing(a),
        increasing(b),
        forall|x: Seq<char>| a.contains(x) <==> b.contains(x),
    ensures
        a == b,
    decreases a.len(),
{
    if a.len() == 0 {
        if b.len() > 0 {
            assert(b.contains(b[0]));
        }
        assert(a =~= b);
    } else {
        let x = a.last();
        assert(a.contains(a[a.len() - 1]));
        assert(b.len() > 0);
        let y = b.last();
        assert(b.contains(b[b.len() - 1]));
        let i = choose|i: int| 0 <= i < a.len() && a[i] == y;
        let j = choose|j: int| 0 <= j < b.len() && b[j] == x;
        // Both are the greatest of the same fragments.
        if x != y {
            assert(precedes(a[i], a[a.len() - 1]));
            assert(precedes(b[j], b[b.len() - 1]));
            lemma_precedes_transitive(x, y, x);
            lemma_precedes_irreflexive(x);
        }
        let ha = a.drop_last();
        let hb = b.drop_last();
        lemma_increasing_distinct(a);
        lemma_increasing_distinct(b);
        assert(a == ha.push(x));
        assert(b == hb.push(y));
        assert forall|z: Seq<char>| ha.contains(z) <==> hb.contains(z) by {
            lemma_seq_contains_after_push(ha, x, z);
            lemma_seq_contains_after_push(hb, y, z);
            if ha.contains(z) {
                let k = choose|k: int| 0 <= k < ha.len() && ha[k] == z;
                assert(a[k] == z && a[a.len() - 1] == x);
            }
            if hb.contains(z) {
                let k = choose|k: int| 0 <= k < hb.len() && hb[k] == z;
                assert(b[k] == z && b[b.len() - 1] == y);
            }
        }
        lemma_increasing_unique(ha, hb);
    }
}

/// Whether `a` stands before `b`.
pub fn comes_before(a: &str, b: &str) -> (before: bool)
    ensures
        before == precedes(a@, b@),
{
    let x = chars_of(a);
    let y = chars_of(b);
    let mut i: usize = 0;
    assert(x@.skip(0) == x@ && y@.skip(0) == y@);
    while i < x.len() && i < y.len() && x[i] == y[i]
        invariant
            i <= x.len(),
            i <= y.len(),
            precedes(x@, y@) == precedes(x@.skip(i as int), y@.skip(i as int)),
        decreases x.len() - i,
    {
        assert(x@.skip(i as int).drop_first() == x@.skip(i + 1));
        assert(y@.skip(i as int).drop_first() == y@.skip(i + 1));
        i += 1;
    }
    if i == y.len() {
        false
    } else if i == x.len() {
        true
    } else {
        x[i] < y[i]
    }
}

/// Whether `f` is among `set`.
pub fn contains_text(set: &Vec<String>, f: &String) -> (found: bool)
    ensures
        found == set.deep_view().contains(f@),
{
    let mut i: usize = 0;
    while i < set.len()
        invariant
            i <= set.len(),
            forall|k: int| 0 <= k < i ==> #[trigger] set.deep_view()[k] != f@,
        decreases set.len() - i,
    {
        if set[i] == *f {
            assert(set.deep_view()[i as int] == f@);
            return true;
        }
        i += 1;
    }
    false
}

/// Puts `f` into `set` at its place, unless it is there already.
pub fn insert_one(set: &mut Vec<String>, f: &String)
    requires
        increasing(old(set).deep_view()),
    ensures
        final(set).deep_view() == with_fragment(old(set).deep_view(), f@),
{
    let ghost before = set.deep_view();
    let mut i: usize = 0;
    while i < set.len() && comes_before(set[i].as_str(), f.as_str())
        invariant
            i <= set.len(),
            before == set.deep_view(),
            forall|k: int| 0 <= k < i ==> precedes(#[trigger] before[k], f@),
        decreases set.len() - i,
    {
        i += 1;
    }
    proof {
        lemma_position_is(before, f@, i as int);
    }
    if i < set.len() && set[i] == *f {
        assert(before[i as int] == f@);
    } else {
        proof {
            assert forall|k: int| 0 <= k < before.len() implies before[k] != f@ by {
                lemma_precedes_irreflexive(f@);
                if k > i {
                    assert(precedes(before[i as int], before[k]));
                }
            }
        }
        set.insert(i, f.clone());
        assert(set.deep_view() == before.insert(i as int, f@));
    }
}

/// Puts each of `fs` into `set`, unless it is there already.
pub fn insert_all(set: &mut Vec<String>, fs: &Vec<String>)
    requires
        increasing(old(set).deep_view()),
    ensures
        final(set).deep_view() == with_all(old(set).deep_view(), fs.deep_view()),
{
    let ghost start = set.deep_view();
    let ghost all = fs.deep_view();
    let mut i: usize = 0;
    assert(all.take(0).len() == 0);
    while i < fs.len()
        invariant
            i <= fs.len(),
            all == fs.deep_view(),
            increasing(start),
            set.deep_view() == with_all(start, all.take(i as int)),
        decreases fs.len() - i,
    {
        proof {
            assert(all.take(i + 1).drop_last() == all.take(i as int));
            assert(all.take(i + 1).last() == fs[i as int]@);
            lemma_with_all(start, all.take(i as int));
        }
        insert_one(set, &fs[i]);
        i += 1;
    }
    assert(all.take(fs.len() as int) == all);
}

/// The fragments of `fs` that are new to `set`.
pub fn fresh_of(set: &Vec<String>, fs: &Vec<String>) -> (news: Vec<String>)
    ensures
        news.deep_view() == fresh(set.deep_view(), fs.deep_view()),
{
    let ghost all = fs.deep_view();
    let mut news: Vec<String> = Vec::new();
    let mut i: usize = 0;
    assert(all.take(0).len() == 0);
    while i < fs.len()
        invariant
            i <= fs.len(),
            all == fs.deep_view(),
            news.deep_view() == fresh(set.deep_view(), all.take(i as int)),
        decreases fs.len() - i,
    {
        let ghost before = news.deep_view();
        proof {
            assert(all.take(i + 1).drop_last() == all.take(i as int));
            assert(all.take(i + 1).last() == fs[i as int]@);
        }
        if !contains_text(set, &fs[i]) && !contains_text(&news, &fs[i]) {
            news.push(fs[i].clone());
            assert(news.deep_view() == before.push(fs[i as int]@));
        }
        i += 1;
    }
    assert(all.take(fs.len() as int) == all);
    news
}

/// The fragments of `set` that are not among `fs`.
pub fn retain_others(set: &Vec<String>, fs: &Vec<String>) -> (rest: Vec<String>)
    ensures
        rest.deep_view() == without_all(set.deep_view(), fs.deep_view()),
{
    let ghost all = set.deep_view();
    let ghost keep = |p: Seq<char>| !fs.deep_view().contains(p);
    let mut rest: Vec<String> = Vec::new();
    let mut i: usize = 0;
    proof {
        reveal(Seq::filter);
    }
    while i < set.len()
        invariant
            i <= set.len(),
            all == set.deep_view(),
            keep == |p: Seq<char>| !fs.deep_view().contains(p),
            rest.deep_view() == all.take(i as int).filter(keep),
        decreases set.len() - i,
    {
        proof {
            assert(all.take(i + 1) == all.take(i as int).push(set[i as int]@));
            all.take(i as int).lemma_filter_push(set[i as int]@, keep);
        }
        if !contains_text(fs, &set[i]) {
            rest.push(set[i].clone());
        }
        i += 1;
    }
    assert(all.take(set.len() as int) == all);
    rest
}

/// The fragment in a group of its own: the plain group if the engine takes
/// it, else the group that closes on a new line.
pub fn enclose(f: &str) -> (text: String)
    ensures
        text@ == enclosed(f@),
{
    let mut plain = String::new();
    plain.push('(');
    plain.push('?');
    plain.push(':');
    plain.append(f);
    let mut closed = plain.clone();
    plain.push(')');
    assert(plain@ == grouped(f@));
    match compile(plain.as_str()) {
        Ok(_) => plain,
        Err(_) => {
            closed.push('\n');
            closed.push(')');
            assert(closed@ == grouped_on_new_line(f@));
            closed
        },
    }
}

/// The text of the expression for `frags`.
pub fn alternation_text(frags: &Vec<String>) -> (text: String)
    ensures
        text@ == alternation(frags.deep_view()),
{
    if frags.len() == 0 {
        let mut text = String::new();
        text.push('^');
        text.push('$');
        assert(text@ == match_empty_only());
        return text;
    }
    let ghost all = frags.deep_view();
    let mut text = enclose(frags[0].as_str());
    let mut i: usize = 1;
    while i < frags.len()
        invariant
            1 <= i <= frags.len(),
            all == frags.deep_view(),
            text@ == join(all.take(i as int)),
        decreases frags.len() - i,
    {
        proof {
            assert(all.take(i + 1).drop_last() == all.take(i as int));
            assert(all.take(i + 1).last() == frags[i as int]@);
        }
        let group = enclose(frags[i].as_str());
        text.push('|');
        text.append(group.as_str());
        i += 1;
    }
    assert(all.take(frags.len() as int) == all);
    text
}

} // verus!
