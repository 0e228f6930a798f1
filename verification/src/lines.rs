//! Pattern text: one fragment on each line, blank lines ignored.
//!
//! A line ends at a line feed, or at the end of the text. A carriage return
//! directly before the line feed belongs to the line ending. Nothing else is
//! taken off a line: what stands on it is the fragment, character for
//! character.

use crate::text::{chars_of, text_of};
use vstd::prelude::*;

verus! {

/// Whether `c` is white space: a character with the Unicode property
/// `White_Space`.
pub open spec fn is_space(c: char) -> bool {
    let n = c as u32;
    ||| 0x09 <= n <= 0x0D
    ||| n == 0x20
    ||| n == 0x85
    ||| n == 0xA0
    ||| n == 0x1680
    ||| 0x2000 <= n <= 0x200A
    ||| n == 0x2028
    ||| n == 0x2029
    ||| n == 0x202F
    ||| n == 0x205F
    ||| n == 0x3000
}

/// Whether a line is blank: nothing would be left of it once the white space
/// at both of its ends were taken off.
pub open spec fn is_blank(line: Seq<char>) -> bool {
    forall|i: int| 0 <= i < line.len() ==> is_space(#[trigger] line[i])
}

/// Where the first line of `s` ends: at its first line feed, or at `s.len()`
/// where it has none.
pub open spec fn line_end(s: Seq<char>) -> int
    decreases s.len(),
{
    if s.len() == 0 || s[0] == '\n' {
        0
    } else {
        1 + line_end(s.drop_first())
    }
}

/// What stood before a line feed, less the carriage return at its end if it
/// has one.
pub open spec fn without_cr(line: Seq<char>) -> Seq<char> {
    if line.len() > 0 && line.last() == '\r' {
        line.drop_last()
    } else {
        line
    }
}

/// The lines of `s`, in order. The empty text has none, and a line feed at
/// the very end opens no further line.
pub open spec fn split_lines(s: Seq<char>) -> Seq<Seq<char>>
    decreases s.len(),
    via split_lines_decreases
{
    if s.len() == 0 {
        Seq::empty()
    } else if line_end(s) == s.len() {
        seq![s]
    } else {
        seq![without_cr(s.take(line_end(s)))] + split_lines(s.skip(line_end(s) + 1))
    }
}

#[via_fn]
proof fn split_lines_decreases(s: Seq<char>) {
    lemma_line_end(s);
}

/// The lines of `s` that are not blank, in order.
pub open spec fn pattern_lines(s: Seq<char>) -> Seq<Seq<char>> {
    split_lines(s).filter(|line: Seq<char>| !is_blank(line))
}

/// `line_end` lies within the text, no line feed stands before it, and one
/// stands at it unless it is the end of the text.
pub proof fn lemma_line_end(s: Seq<char>)
    ensures
        0 <= line_end(s) <= s.len(),
        forall|i: int| 0 <= i < line_end(s) ==> s[i] != '\n',
        line_end(s) < s.len() ==> s[line_end(s)] == '\n',
    decreases s.len(),
{
    if s.len() == 0 || s[0] == '\n' {
    } else {
        let rest = s.drop_first();
        lemma_line_end(rest);
        assert forall|i: int| 0 <= i < line_end(s) implies s[i] != '\n' by {
            if i > 0 {
                assert(s[i] == rest[i - 1]);
            }
        }
    }
}

/// The first position without a line feed before it, and with one at it or
/// the end of the text there, is `line_end`.
pub proof fn lemma_line_end_is(s: Seq<char>, n: int)
    requires
        0 <= n <= s.len(),
        forall|i: int| 0 <= i < n ==> s[i] != '\n',
        n < s.len() ==> s[n] == '\n',
    ensures
        line_end(s) == n,
{
    lemma_line_end(s);
}

/// Tells white space from other characters.
pub fn is_space_char(c: char) -> (b: bool)
    ensures
        b == is_space(c),
{
    let n: u32 = c as u32;
    (0x09 <= n && n <= 0x0D) || n == 0x20 || n == 0x85 || n == 0xA0 || n == 0x1680 || (0x2000 <= n
        && n <= 0x200A) || n == 0x2028 || n == 0x2029 || n == 0x202F || n == 0x205F || n == 0x3000
}

/// Whether `chars[from..to]` is blank.
fn is_blank_range(chars: &Vec<char>, from: usize, to: usize) -> (b: bool)
    requires
        from <= to <= chars.len(),
    ensures
        b == is_blank(chars@.subrange(from as int, to as int)),
{
    let ghost line = chars@.subrange(from as int, to as int);
    let mut i: usize = from;
    while i < to
        invariant
            from <= i <= to <= chars.len(),
            line == chars@.subrange(from as int, to as int),
            forall|k: int| 0 <= k < i - from ==> is_space(#[trigger] line[k]),
        decreases to - i,
    {
        if !is_space_char(chars[i]) {
            assert(!is_space(line[i - from]));
            return false;
        }
        i += 1;
    }
    true
}

/// The end of the line that starts at `from`.
fn find_line_end(chars: &Vec<char>, from: usize) -> (end: usize)
    requires
        from <= chars.len(),
    ensures
        from <= end <= chars.len(),
        end - from == line_end(chars@.skip(from as int)),
{
    let ghost rest = chars@.skip(from as int);
    let mut end: usize = from;
    while end < chars.len() && chars[end] != '\n'
        invariant
            from <= end <= chars.len(),
            rest == chars@.skip(from as int),
            forall|k: int| 0 <= k < end - from ==> #[trigger] rest[k] != '\n',
        decreases chars.len() - end,
    {
        end += 1;
    }
    proof {
        lemma_line_end_is(rest, end - from);
    }
    end
}

/// The lines of `text` that are not blank, in the order in which they stand.
pub fn nonblank_lines(text: &str) -> (lines: Vec<String>)
    ensures
        lines.deep_view() == pattern_lines(text@),
{
    let chars = chars_of(text);
    let n = chars.len();
    let mut lines: Vec<String> = Vec::new();
    let mut start: usize = 0;
    proof {
        assert(chars@.skip(0) == chars@);
    }
    while start < n
        invariant
            n == chars.len(),
            start <= n,
            pattern_lines(chars@) == lines.deep_view() + pattern_lines(chars@.skip(start as int)),
        decreases n - start,
    {
        let ghost rest = chars@.skip(start as int);
        let ghost found = lines.deep_view();
        let ghost keep = |line: Seq<char>| !is_blank(line);
        let end = find_line_end(&chars, start);
        let terminated = end < n;
        let stop = if terminated && end > start && chars[end - 1] == '\r' {
            end - 1
        } else {
            end
        };
        let next = if terminated {
            end + 1
        } else {
            end
        };
        let ghost line = chars@.subrange(start as int, stop as int);
        proof {
            let tail = chars@.skip(next as int);
            if terminated {
                assert(without_cr(rest.take(end - start)) == line);
                assert(rest.skip(end - start + 1) == tail);
            }
            Seq::filter_distributes_over_add(seq![line], split_lines(tail), keep);
            Seq::<Seq<char>>::empty().lemma_filter_push(line, keep);
            reveal_with_fuel(Seq::filter, 1);
        }
        if !is_blank_range(&chars, start, stop) {
            lines.push(text_of(&chars, start, stop));
            assert(found.push(line) + pattern_lines(chars@.skip(next as int)) == found + (seq![line]
                + pattern_lines(chars@.skip(next as int))));
        }
        start = next;
    }
    proof {
        reveal_with_fuel(Seq::filter, 1);
    }
    lines
}

} // verus!
