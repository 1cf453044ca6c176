//! Sentence-boundary snapping.
//!
//! A raw fuzzy match can cut a sentence in half. This stage widens a span to
//! the sentence that contains it: backward to just after the previous
//! sentence-terminal punctuation (skipping the whitespace and punctuation
//! run that follows it), forward to just after the next terminal, absorbing
//! any closing quotes or parentheses. The forward scan is deliberately
//! uncapped: on a page with no terminal punctuation it runs to the end.

use vstd::prelude::*;

verus! {

/// Sentence-terminal punctuation.
pub open spec fn is_terminal(c: char) -> bool {
    c == '.' || c == '!' || c == '?'
}

/// The whitespace characters the snapper skips between sentences.
pub open spec fn is_snap_space(c: char) -> bool {
    c == ' ' || c == '\t' || c == '\r' || c == '\n'
}

/// Characters that may sit between two sentences: whitespace or further
/// terminal punctuation.
pub open spec fn is_gap_char(c: char) -> bool {
    is_snap_space(c) || is_terminal(c)
}

/// Closing quotes and parentheses absorbed after the final terminal.
pub open spec fn is_closer(c: char) -> bool {
    c == '"' || c == '\'' || c == ')'
}

/// The characters of an entry sequence.
pub open spec fn entry_chars(e: Seq<(usize, char)>) -> Seq<char> {
    e.map(|k: int, p: (usize, char)| p.1)
}

/// The nearest terminal at or before position `i`, scanning backward.
pub open spec fn back_terminal(chars: Seq<char>, i: int) -> Option<int>
    recommends
        i < chars.len(),
    decreases i + 1,
{
    if i < 0 {
        None
    } else if is_terminal(chars[i]) {
        Some(i)
    } else {
        back_terminal(chars, i - 1)
    }
}

/// The first position at or after `j` that is neither whitespace nor a
/// terminal, or the sequence end.
pub open spec fn skip_gap(chars: Seq<char>, j: int) -> int
    recommends
        0 <= j <= chars.len(),
    decreases chars.len() - j,
{
    if j < chars.len() && 0 <= j && is_gap_char(chars[j]) {
        skip_gap(chars, j + 1)
    } else {
        j
    }
}

/// The first terminal at or after `i`, or the sequence end.
pub open spec fn forward_terminal(chars: Seq<char>, i: int) -> int
    recommends
        0 <= i <= chars.len(),
    decreases chars.len() - i,
{
    if i < chars.len() && 0 <= i && !is_terminal(chars[i]) {
        forward_terminal(chars, i + 1)
    } else {
        i
    }
}

/// Extends `i` over any immediately following closing characters.
pub open spec fn absorb_closers(chars: Seq<char>, i: int) -> int
    recommends
        0 <= i <= chars.len(),
    decreases chars.len() - i,
{
    if i + 1 < chars.len() && 0 <= i && is_closer(chars[i + 1]) {
        absorb_closers(chars, i + 1)
    } else {
        i
    }
}

/// Where a span starting at `start` snaps to.
pub open spec fn snap_start(chars: Seq<char>, start: int) -> int {
    if start == 0 {
        0
    } else {
        match back_terminal(chars, start - 1) {
            Some(i) => skip_gap(chars, i + 1),
            None => 0,
        }
    }
}

/// Where a span ending at `end` snaps to.
pub open spec fn snap_end(chars: Seq<char>, end: int) -> int {
    let i = forward_terminal(chars, end);
    let j = absorb_closers(chars, i);
    if j + 1 <= chars.len() {
        j + 1
    } else {
        chars.len() as int
    }
}

/// `skip_gap` never passes a position that is not a gap character.
proof fn lemma_skip_gap_stops(chars: Seq<char>, j: int, p: int)
    requires
        0 <= j <= p < chars.len(),
        !is_gap_char(chars[p]),
    ensures
        skip_gap(chars, j) <= p,
    decreases p - j,
{
    if j < p {
        if is_gap_char(chars[j]) {
            lemma_skip_gap_stops(chars, j + 1, p);
        }
    }
}

/// `skip_gap` stays within the sequence.
proof fn lemma_skip_gap_bounds(chars: Seq<char>, j: int)
    requires
        0 <= j <= chars.len(),
    ensures
        j <= skip_gap(chars, j) <= chars.len(),
    decreases chars.len() - j,
{
    if j < chars.len() && is_gap_char(chars[j]) {
        lemma_skip_gap_bounds(chars, j + 1);
    }
}

/// Sentence-terminal punctuation, as executable code.
fn terminal_char(c: char) -> (r: bool)
    ensures
        r == is_terminal(c),
{
    c == '.' || c == '!' || c == '?'
}

/// Gap characters (whitespace or terminal), as executable code.
fn gap_char(c: char) -> (r: bool)
    ensures
        r == is_gap_char(c),
{
    c == ' ' || c == '\t' || c == '\r' || c == '\n' || c == '.' || c == '!' || c == '?'
}

/// Closing quotes and parentheses, as executable code.
fn closer_char(c: char) -> (r: bool)
    ensures
        r == is_closer(c),
{
    c == '"' || c == '\'' || c == ')'
}

/// Adjusts a match span to the sentence boundaries that contain it.
///
/// The new end never shrinks. The new start never grows past the old one as
/// long as the span does not begin on inter-sentence filler (whitespace or
/// terminal punctuation); a span that does begin there snaps forward to the
/// start of the following sentence.
pub fn snap_to_sentence_boundaries(char_entries: &[(usize, char)], start: usize, end: usize) -> (r:
    (usize, usize))
    requires
        start <= char_entries@.len(),
        end <= char_entries@.len(),
    ensures
        r.0 == snap_start(entry_chars(char_entries@), start as int),
        r.1 == snap_end(entry_chars(char_entries@), end as int),
        r.0 <= char_entries@.len(),
        end <= r.1 <= char_entries@.len(),
        start == 0 ==> r.0 == 0,
        start < char_entries@.len() && !is_gap_char(char_entries@[start as int].1) ==> r.0
            <= start,
{
    let ghost chars = entry_chars(char_entries@);
    let len = char_entries.len();
    assert(chars.len() == len);

    // Backward pass: find the previous terminal, then step over the gap that
    // follows it.
    let mut new_start: usize = 0;
    if start > 0 {
        let mut i: usize = start;
        let mut term: Option<usize> = None;
        while i > 0
            invariant_except_break
                term is None,
                back_terminal(chars, start - 1) == back_terminal(chars, i - 1),
            invariant
                i <= start <= chars.len(),
                chars == entry_chars(char_entries@),
                char_entries@.len() == chars.len(),
            ensures
                match term {
                    Some(t) => back_terminal(chars, start - 1) == Some(t as int),
                    None => back_terminal(chars, start - 1) is None,
                },
            decreases i,
        {
            if terminal_char(char_entries[i - 1].1) {
                term = Some(i - 1);
                break ;
            }
            i = i - 1;
        }
        match term {
            Some(t) => {
                proof {
                    lemma_back_terminal_in_range(chars, start as int - 1);
                }
                let mut j: usize = t + 1;
                while j < len && gap_char(char_entries[j].1)
                    invariant
                        t < j <= chars.len(),
                        skip_gap(chars, t + 1) == skip_gap(chars, j as int),
                        len == chars.len(),
                        chars == entry_chars(char_entries@),
                    decreases chars.len() - j,
                {
                    j = j + 1;
                }
                new_start = j;
            },
            None => {
                new_start = 0;
            },
        }
    }

    // Forward pass: run to the next terminal, then absorb closing quotes and
    // parentheses.
    let mut i: usize = end;
    while i < len && !terminal_char(char_entries[i].1)
        invariant
            end <= i <= chars.len(),
            forward_terminal(chars, end as int) == forward_terminal(chars, i as int),
            len == chars.len(),
            chars == entry_chars(char_entries@),
        decreases chars.len() - i,
    {
        i = i + 1;
    }
    assert(forward_terminal(chars, end as int) == i);
    while len - i > 1 && closer_char(char_entries[i + 1].1)
        invariant
            end <= i <= chars.len(),
            absorb_closers(chars, forward_terminal(chars, end as int)) == absorb_closers(
                chars,
                i as int,
            ),
            len == chars.len(),
            chars == entry_chars(char_entries@),
        decreases chars.len() - i,
    {
        i = i + 1;
    }
    let new_end: usize = if i < len {
        i + 1
    } else {
        len
    };

    proof {
        if start > 0 {
            match back_terminal(chars, start as int - 1) {
                Some(t) => {
                    lemma_skip_gap_bounds(chars, t + 1);
                    if start < chars.len() && !is_gap_char(chars[start as int]) {
                        lemma_back_terminal_in_range(chars, start as int - 1);
                        lemma_skip_gap_stops(chars, t + 1, start as int);
                    }
                },
                None => {},
            }
        }
    }
    (new_start, new_end)
}

/// A terminal found scanning backward from `i` lies in `[0, i]`.
proof fn lemma_back_terminal_in_range(chars: Seq<char>, i: int)
    requires
        i < chars.len(),
    ensures
        match back_terminal(chars, i) {
            Some(t) => 0 <= t <= i && is_terminal(chars[t]),
            None => true,
        },
    decreases i + 1,
{
    if i >= 0 && !is_terminal(chars[i]) {
        lemma_back_terminal_in_range(chars, i - 1);
    }
}

} // verus!
