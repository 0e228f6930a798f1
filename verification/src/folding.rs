//! ASCII-only case folding: the twenty-six capital letters `A` to `Z` become
//! their lowercase forms, every other character stays as it is.

use vstd::prelude::*;

verus! {

/// Whether `c` is one of the letters `A` to `Z`.
pub open spec fn is_ascii_capital(c: char) -> bool {
    'A' <= c && c <= 'Z'
}

/// The lowercase form of `c` where `c` is an ASCII capital, `c` itself otherwise.
pub open spec fn fold_char(c: char) -> char {
    if is_ascii_capital(c) {
        ((c as u8) + 32) as char
    } else {
        c
    }
}

/// The text with each of its characters folded.
pub open spec fn fold_text(s: Seq<char>) -> Seq<char> {
    s.map_values(|c: char| fold_char(c))
}

/// Each of the texts folded.
pub open spec fn fold_all(texts: Seq<Seq<char>>) -> Seq<Seq<char>> {
    texts.map_values(|s: Seq<char>| fold_text(s))
}

/// Whether the text is in folded form: it holds no ASCII capital.
pub open spec fn is_folded(s: Seq<char>) -> bool {
    forall|i: int| 0 <= i < s.len() ==> !is_ascii_capital(#[trigger] s[i])
}

/// A folded text is in folded form, and folding it again changes nothing.
pub proof fn lemma_fold_text_is_folded(s: Seq<char>)
    ensures
        is_folded(fold_text(s)),
        fold_text(fold_text(s)) == fold_text(s),
{
}

/// Each text, folded, is in folded form.
pub proof fn lemma_all_folded(texts: Seq<Seq<char>>)
    ensures
        forall|f: Seq<char>| #[trigger] fold_all(texts).contains(f) ==> is_folded(f),
{
    assert forall|f: Seq<char>| #[trigger] fold_all(texts).contains(f) implies is_folded(f) by {
        let k = choose|k: int| 0 <= k < fold_all(texts).len() && fold_all(texts)[k] == f;
        lemma_fold_text_is_folded(texts[k]);
    }
}

/// Folds one character.
pub fn lower_char(c: char) -> (r: char)
    ensures
        r == fold_char(c),
{
    if 'A' <= c && c <= 'Z' {
        let b: u8 = c as u8;
        (b + 32) as char
    } else {
        c
    }
}

/// Folds a text.
pub fn lower_text(text: &str) -> (r: String)
    ensures
        r@ == fold_text(text@),
{
    let mut out = String::new();
    for c in it: text.chars()
        invariant
            it.seq() == text@,
            out@ == fold_text(text@.take(it.index() as int)),
    {
        out.push(lower_char(c));
    }
    out
}

} // verus!
