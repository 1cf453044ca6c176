//! Fuzzy span location.
//!
//! Given the normalized entry sequence of a page and a noisy passage text,
//! the locator returns a sorted, non-overlapping list of match spans. Both
//! sides are case-folded per character; an exact occurrence short-circuits
//! everything, otherwise a short anchor prefix of the needle proposes
//! candidate starts (with an evenly spaced fallback), each candidate is
//! scored with Jaro-Winkler over a range of window lengths, and a greedy
//! reconciliation keeps the best-scoring non-overlapping spans.

use crate::jaro::{jaro_winkler, spec_jaro_winkler, lemma_spec_jaro_winkler_wf, MAX_COMPARE_LEN};
use crate::score::{frac_le, frac_lt, lemma_frac_le_trans, Score};
use vstd::prelude::*;
use vstd::slice::slice_subrange;

verus! {

/// Length cap on the needle, so that the widest scoring window still fits
/// under the metric's own length cap.
pub const MAX_NEEDLE_LEN: usize = 600_000;

/// The case fold of one character.
pub uninterp spec fn folded(c: char) -> char;

/// Relies on `char::to_lowercase`: the mapping depends on the character
/// alone; its first character (or the input itself, were the mapping ever
/// empty) is the fold used for matching.
#[verifier::external_body]
fn fold_char(c: char) -> (r: char)
    ensures
        r == folded(c),
{
    c.to_lowercase().next().unwrap_or(c)
}

/// A character sequence, case-folded per character.
pub open spec fn fold_seq(s: Seq<char>) -> Seq<char> {
    s.map_values(|c: char| folded(c))
}

/// The characters of an entry sequence, case-folded per character.
pub open spec fn entry_fold(e: Seq<(usize, char)>) -> Seq<char> {
    e.map_values(|p: (usize, char)| folded(p.1))
}

/// Case-folds the characters of an entry sequence.
fn fold_entries(entries: &[(usize, char)]) -> (r: Vec<char>)
    ensures
        r@ == entry_fold(entries@),
{
    let mut r: Vec<char> = Vec::new();
    let mut i: usize = 0;
    while i < entries.len()
        invariant
            i <= entries@.len(),
            r@ == entry_fold(entries@.take(i as int)),
        decreases entries@.len() - i,
    {
        r.push(fold_char(entries[i].1));
        proof {
            assert(r@ =~= entry_fold(entries@.take(i + 1 as int)));
        }
        i = i + 1;
    }
    proof {
        assert(entries@.take(entries@.len() as int) =~= entries@);
    }
    r
}

/// Case-folds a character sequence.
fn fold_chars(chars: &[char]) -> (r: Vec<char>)
    ensures
        r@ == fold_seq(chars@),
{
    let mut r: Vec<char> = Vec::new();
    let mut i: usize = 0;
    while i < chars.len()
        invariant
            i <= chars@.len(),
            r@ == fold_seq(chars@.take(i as int)),
        decreases chars@.len() - i,
    {
        r.push(fold_char(chars[i]));
        proof {
            assert(r@ =~= fold_seq(chars@.take(i + 1 as int)));
        }
        i = i + 1;
    }
    proof {
        assert(chars@.take(chars@.len() as int) =~= chars@);
    }
    r
}

/// The needle occurs verbatim at position `i` of the haystack.
pub open spec fn occurs_at(h: Seq<char>, n: Seq<char>, i: int) -> bool {
    0 <= i && i + n.len() <= h.len() && h.subrange(i, i + n.len() as int) == n
}

/// The first occurrence at or after position `i`, if any.
pub open spec fn first_occurrence_from(h: Seq<char>, n: Seq<char>, i: int) -> Option<int>
    decreases h.len() - i + 1,
{
    if i < 0 || i + n.len() > h.len() {
        None
    } else if occurs_at(h, n, i) {
        Some(i)
    } else {
        first_occurrence_from(h, n, i + 1)
    }
}

/// The first occurrence of the needle in the haystack, if any.
pub open spec fn first_occurrence(h: Seq<char>, n: Seq<char>) -> Option<int> {
    first_occurrence_from(h, n, 0)
}

/// Finds the first exact occurrence of `needle` in `haystack`.
pub fn find_exact(haystack: &[char], needle: &[char]) -> (r: Option<usize>)
    requires
        needle@.len() >= 1,
    ensures
        match r {
            Some(p) => first_occurrence(haystack@, needle@) == Some(p as int),
            None => first_occurrence(haystack@, needle@) is None,
        },
{
    let n = needle.len();
    let h = haystack.len();
    if n > h {
        return None;
    }
    let mut i: usize = 0;
    while i <= h - n
        invariant
            1 <= n == needle@.len(),
            n <= h == haystack@.len(),
            i <= h - n + 1,
            first_occurrence(haystack@, needle@) == first_occurrence_from(
                haystack@,
                needle@,
                i as int,
            ),
        decreases h - n - i + 1,
    {
        let mut j: usize = 0;
        let mut mismatch: bool = false;
        while j < n && !mismatch
            invariant
                j <= n == needle@.len(),
                n <= h == haystack@.len(),
                i + n <= h,
                !mismatch ==> forall|k: int|
                    0 <= k < j ==> haystack@[i + k] == #[trigger] needle@[k],
                mismatch ==> !occurs_at(haystack@, needle@, i as int),
            decreases n - j, (if mismatch { 0int } else { 1int }),
        {
            if haystack[i + j] != needle[j] {
                proof {
                    assert(haystack@.subrange(i as int, i + n as int)[j as int] != needle@[
                    j as int]);
                }
                mismatch = true;
            } else {
                j = j + 1;
            }
        }
        if !mismatch {
            proof {
                assert(haystack@.subrange(i as int, i + n as int) =~= needle@);
            }
            return Some(i);
        }
        i = i + 1;
    }
    proof {
        assert(first_occurrence_from(haystack@, needle@, (h - n + 1) as int) is None);
    }
    None
}

/// One located span: a half-open index range over the entry sequence and
/// its similarity score.
#[derive(Clone, Copy, Debug)]
pub struct MatchSpan {
    pub start: usize,
    pub end: usize,
    pub score: Score,
}

/// A span is within the haystack, non-empty, and carries a well-formed
/// score.
pub open spec fn span_valid(hlen: int, s: MatchSpan) -> bool {
    s.start < s.end <= hlen && s.score.wf()
}

/// Two spans overlap when each begins before the other ends.
pub open spec fn spans_overlap(x: MatchSpan, y: MatchSpan) -> bool {
    x.start < y.end && x.end > y.start
}

/// The widest scoring window for a needle of length `nlen`: the ceiling of
/// `1.3 * nlen`.
pub open spec fn window_cap(nlen: int) -> int {
    (13 * nlen + 9) / 10
}

/// The anchor prefix length: a sixth of the needle, clamped to `[2, 8]`.
pub open spec fn anchor_length(nlen: int) -> int {
    let a = nlen / 6;
    if a < 2 {
        2
    } else if a > 8 {
        8
    } else {
        a
    }
}

/// The candidate stride when no anchor occurrence exists: a quarter of the
/// needle, at least one.
pub open spec fn fallback_stride(nlen: int) -> int {
    if nlen / 4 >= 1 {
        nlen / 4
    } else {
        1
    }
}

/// The anchor prefix of a folded needle.
pub open spec fn anchor_of(nf: Seq<char>) -> Seq<char> {
    nf.take(anchor_length(nf.len() as int))
}

/// The needle is long enough to carry its anchor prefix.
pub open spec fn anchors_usable(nf: Seq<char>) -> bool {
    anchor_length(nf.len() as int) <= nf.len()
}

/// The anchor occurs verbatim at position `p` of the folded haystack.
pub open spec fn anchor_at(hf: Seq<char>, anchor: Seq<char>, p: int) -> bool {
    0 <= p && p + anchor.len() <= hf.len() && hf.subrange(p, p + anchor.len() as int) == anchor
}

/// The candidate start an anchor occurrence at `p` registers: three
/// positions earlier, floored at the haystack start.
pub open spec fn anchor_candidate(p: int) -> int {
    if p >= 3 {
        p - 3
    } else {
        0
    }
}

/// The anchor prefix occurs somewhere in the folded haystack.
pub open spec fn has_anchor(hf: Seq<char>, nf: Seq<char>) -> bool {
    anchors_usable(nf) && exists|p: int| anchor_at(hf, anchor_of(nf), p)
}

/// The candidate starts the locator scores: those the anchor occurrences
/// register or, when the anchor never occurs, evenly strided positions at
/// which a minimal window still fits.
pub open spec fn is_candidate(hf: Seq<char>, nf: Seq<char>, c: int) -> bool {
    if has_anchor(hf, nf) {
        exists|p: int| anchor_at(hf, anchor_of(nf), p) && c == anchor_candidate(p)
    } else {
        0 <= c && c + nf.len() <= hf.len() && c % fallback_stride(nf.len() as int) == 0
    }
}

/// Window `w` at candidate `c` meets the threshold `t`.
pub open spec fn window_accepts(hf: Seq<char>, nf: Seq<char>, c: int, w: int, t: Score) -> bool {
    nf.len() <= w <= window_cap(nf.len() as int) && 0 <= c && c + w <= hf.len() && frac_le(
        t.num as int,
        t.den as int,
        spec_jaro_winkler(nf, hf.subrange(c, c + w)).0,
        spec_jaro_winkler(nf, hf.subrange(c, c + w)).1,
    )
}

/// Some window at candidate `c` meets the threshold.
pub open spec fn accepts(hf: Seq<char>, nf: Seq<char>, c: int, t: Score) -> bool {
    exists|w: int| window_accepts(hf, nf, c, w, t)
}

/// The locator finds at least one span: an exact occurrence, or a
/// candidate start with an accepting window.
pub open spec fn fuzzy_has_match(hf: Seq<char>, nf: Seq<char>, t: Score) -> bool {
    nf.len() > 0 && hf.len() > 0 && (first_occurrence(hf, nf) is Some || exists|c: int|
        is_candidate(hf, nf, c) && accepts(hf, nf, c, t))
}

/// A non-exact span starts at a candidate position, its score is the
/// Jaro-Winkler similarity of the needle against exactly the span's
/// window, it meets the threshold, and the window length lies in the
/// scored range.
pub open spec fn span_scored(hf: Seq<char>, nf: Seq<char>, t: Score, s: MatchSpan) -> bool {
    &&& is_candidate(hf, nf, s.start as int)
    &&& nf.len() <= s.end - s.start <= window_cap(nf.len() as int)
    &&& s.score.num as int == spec_jaro_winkler(
        nf,
        hf.subrange(s.start as int, s.end as int),
    ).0
    &&& s.score.den as int == spec_jaro_winkler(
        nf,
        hf.subrange(s.start as int, s.end as int),
    ).1
    &&& frac_le(t.num as int, t.den as int, s.score.num as int, s.score.den as int)
}

/// Everything the locator promises of its result, over the folded needle
/// `nf` and folded haystack `hf`:
/// spans are valid, sorted by start and pairwise non-overlapping; a span
/// comes back exactly when an exact occurrence or an accepting candidate
/// exists; a verbatim occurrence of the folded needle yields exactly one
/// span at its first position with score one; and otherwise every span
/// scores at least the threshold, with its exact similarity recorded.
pub open spec fn located(hf: Seq<char>, nf: Seq<char>, t: Score, spans: Seq<MatchSpan>) -> bool {
    &&& forall|k: int| 0 <= k < spans.len() ==> span_valid(hf.len() as int, #[trigger] spans[k])
    &&& forall|k1: int, k2: int|
        0 <= k1 < k2 < spans.len() ==> (#[trigger] spans[k1]).start <= (#[trigger] spans[k2]).start
    &&& forall|k1: int, k2: int|
        0 <= k1 < k2 < spans.len() ==> !spans_overlap(#[trigger] spans[k1], #[trigger] spans[k2])
    &&& (spans.len() > 0 <==> fuzzy_has_match(hf, nf, t))
    &&& (match first_occurrence(hf, nf) {
        Some(p) => nf.len() > 0 && hf.len() > 0 ==> spans.len() == 1 && spans[0].start == p
            && spans[0].end == p + nf.len() && spans[0].score.num == 1 && spans[0].score.den == 1,
        None => forall|k: int| 0 <= k < spans.len() ==> span_scored(hf, nf, t, #[trigger] spans[k]),
    })
}

/// Raising the threshold never turns "no span anywhere" into a span: a
/// needle that finds nothing at a lax threshold finds nothing at a
/// stricter one. (The full span count is not monotone in the threshold:
/// the greedy exclusion cursor can split differently.)
pub proof fn lemma_threshold_monotone_empty(hf: Seq<char>, nf: Seq<char>, t1: Score, t2: Score)
    requires
        t1.wf(),
        t2.wf(),
        frac_le(t1.num as int, t1.den as int, t2.num as int, t2.den as int),
        !fuzzy_has_match(hf, nf, t1),
    ensures
        !fuzzy_has_match(hf, nf, t2),
{
    if fuzzy_has_match(hf, nf, t2) {
        if first_occurrence(hf, nf) is Some {
            assert(fuzzy_has_match(hf, nf, t1));
        } else {
            let c = choose|c: int| is_candidate(hf, nf, c) && accepts(hf, nf, c, t2);
            let w = choose|w: int| window_accepts(hf, nf, c, w, t2);
            let jw = spec_jaro_winkler(nf, hf.subrange(c, c + w));
            lemma_spec_jaro_winkler_wf(nf, hf.subrange(c, c + w));
            lemma_frac_le_trans(
                t1.num as int,
                t1.den as int,
                t2.num as int,
                t2.den as int,
                jw.0,
                jw.1,
            );
            assert(window_accepts(hf, nf, c, w, t1));
            assert(fuzzy_has_match(hf, nf, t1));
        }
    }
}

/// When the folded needle occurs verbatim in a non-empty haystack, the
/// locator's contract leaves no freedom at all: any two results are the
/// same single span, whatever the thresholds were.
pub proof fn lemma_exact_path_deterministic(
    hf: Seq<char>,
    nf: Seq<char>,
    t1: Score,
    t2: Score,
    s1: Seq<MatchSpan>,
    s2: Seq<MatchSpan>,
)
    requires
        nf.len() > 0,
        hf.len() > 0,
        first_occurrence(hf, nf) is Some,
        located(hf, nf, t1, s1),
        located(hf, nf, t2, s2),
    ensures
        s1 == s2,
{
    assert(s1 =~= s2);
}

/// Reconciles raw matches: sorts them by score (best first), keeps each
/// span unless it overlaps an already-kept better one, and returns the
/// kept spans sorted by start.
pub fn deduplicate_matches(matches: Vec<MatchSpan>) -> (r: Vec<MatchSpan>)
    requires
        forall|k: int|
            0 <= k < matches@.len() ==> (#[trigger] matches@[k]).start < matches@[k].end
                && matches@[k].score.wf(),
    ensures
        forall|j: int| 0 <= j < r@.len() ==> matches@.contains(#[trigger] r@[j]),
        forall|j1: int, j2: int|
            0 <= j1 < j2 < r@.len() ==> (#[trigger] r@[j1]).end <= (#[trigger] r@[j2]).start,
        r@.len() > 0 <==> matches@.len() > 0,
{
    // Sort by score, best first (insertion sort; ties keep earlier spans
    // earlier).
    let mut sorted: Vec<MatchSpan> = Vec::new();
    let mut i: usize = 0;
    while i < matches.len()
        invariant
            i <= matches@.len(),
            sorted@.len() == i,
            forall|k: int|
                0 <= k < matches@.len() ==> (#[trigger] matches@[k]).start < matches@[k].end
                    && matches@[k].score.wf(),
            forall|j: int| 0 <= j < sorted@.len() ==> matches@.contains(#[trigger] sorted@[j]),
            forall|j: int|
                0 <= j < sorted@.len() ==> (#[trigger] sorted@[j]).start < sorted@[j].end
                    && sorted@[j].score.wf(),
            forall|j1: int, j2: int|
                0 <= j1 < j2 < sorted@.len() ==> frac_le(
                    (#[trigger] sorted@[j2]).score.num as int,
                    sorted@[j2].score.den as int,
                    (#[trigger] sorted@[j1]).score.num as int,
                    sorted@[j1].score.den as int,
                ),
        decreases matches@.len() - i,
    {
        let m = matches[i];
        let mut pos: usize = 0;
        while pos < sorted.len() && !m.score.gt(&sorted[pos].score)
            invariant
                pos <= sorted@.len(),
                forall|k: int|
                    0 <= k < pos ==> frac_le(
                        m.score.num as int,
                        m.score.den as int,
                        (#[trigger] sorted@[k]).score.num as int,
                        sorted@[k].score.den as int,
                    ),
            decreases sorted@.len() - pos,
        {
            pos = pos + 1;
        }
        proof {
            if pos < sorted@.len() {
                assert forall|k: int| pos <= k < sorted@.len() implies frac_le(
                    (#[trigger] sorted@[k]).score.num as int,
                    sorted@[k].score.den as int,
                    m.score.num as int,
                    m.score.den as int,
                ) by {
                    if k > pos {
                        lemma_frac_le_trans(
                            sorted@[k].score.num as int,
                            sorted@[k].score.den as int,
                            sorted@[pos as int].score.num as int,
                            sorted@[pos as int].score.den as int,
                            m.score.num as int,
                            m.score.den as int,
                        );
                    }
                }
            }
        }
        let ghost old_sorted = sorted@;
        sorted.insert(pos, m);
        proof {
            assert(sorted@ == old_sorted.insert(pos as int, m));
            assert forall|j: int| 0 <= j < sorted@.len() implies (#[trigger] sorted@[j])
                == if j < pos {
                old_sorted[j]
            } else if j == pos {
                m
            } else {
                old_sorted[j - 1]
            } by {
                assert(sorted@ =~= old_sorted.take(pos as int) + seq![m] + old_sorted.skip(
                    pos as int,
                ));
            }
        }
        i = i + 1;
    }

    // Keep each span unless it overlaps an already-kept better one.
    let mut kept: Vec<MatchSpan> = Vec::new();
    let mut si: usize = 0;
    while si < sorted.len()
        invariant
            si <= sorted@.len(),
            forall|k: int|
                0 <= k < matches@.len() ==> (#[trigger] matches@[k]).start < matches@[k].end
                    && matches@[k].score.wf(),
            forall|j: int| 0 <= j < kept@.len() ==> matches@.contains(#[trigger] kept@[j]),
            forall|j: int|
                0 <= j < kept@.len() ==> (#[trigger] kept@[j]).start < kept@[j].end
                    && kept@[j].score.wf(),
            forall|j1: int, j2: int|
                0 <= j1 < j2 < kept@.len() ==> !spans_overlap(
                    #[trigger] kept@[j1],
                    #[trigger] kept@[j2],
                ),
            forall|j: int| 0 <= j < sorted@.len() ==> matches@.contains(#[trigger] sorted@[j]),
            forall|j: int|
                0 <= j < sorted@.len() ==> (#[trigger] sorted@[j]).start < sorted@[j].end
                    && sorted@[j].score.wf(),
            sorted@.len() == matches@.len(),
            si > 0 ==> kept@.len() > 0,
        decreases sorted@.len() - si,
    {
        let s = sorted[si];
        let mut overlaps: bool = false;
        let mut ki: usize = 0;
        while ki < kept.len() && !overlaps
            invariant
                ki <= kept@.len(),
                overlaps ==> kept@.len() > 0,
                !overlaps ==> forall|k: int|
                    0 <= k < ki ==> !spans_overlap(s, #[trigger] kept@[k]),
            decreases kept@.len() - ki, (if overlaps { 0int } else { 1int }),
        {
            if s.start < kept[ki].end && s.end > kept[ki].start {
                overlaps = true;
            } else {
                ki = ki + 1;
            }
        }
        if !overlaps {
            kept.push(s);
        }
        si = si + 1;
    }

    // Return the kept spans in reading order (selection sort by start;
    // kept spans never overlap, so their starts are distinct).
    let ghost kept0 = kept@;
    let mut rest = kept;
    let mut out: Vec<MatchSpan> = Vec::new();
    while rest.len() > 0
        invariant
            forall|j: int| 0 <= j < out@.len() ==> matches@.contains(#[trigger] out@[j]),
            forall|j: int| 0 <= j < rest@.len() ==> matches@.contains(#[trigger] rest@[j]),
            forall|j: int|
                0 <= j < rest@.len() ==> (#[trigger] rest@[j]).start < rest@[j].end,
            forall|j1: int, j2: int|
                0 <= j1 < j2 < rest@.len() ==> !spans_overlap(
                    #[trigger] rest@[j1],
                    #[trigger] rest@[j2],
                ),
            forall|j1: int, j2: int|
                0 <= j1 < j2 < out@.len() ==> (#[trigger] out@[j1]).end <= (#[trigger] out@[
                j2]).start,
            forall|j1: int, j2: int|
                0 <= j1 < out@.len() && 0 <= j2 < rest@.len() ==> (#[trigger] out@[j1]).end <= (
                #[trigger] rest@[j2]).start,
            out@.len() + rest@.len() == kept0.len(),
        decreases rest@.len(),
    {
        let mut mi: usize = 0;
        let mut mj: usize = 1;
        while mj < rest.len()
            invariant
                mi < mj <= rest@.len(),
                rest@.len() > 0,
                forall|k: int| 0 <= k < mj ==> (#[trigger] rest@[mi as int]).start <= rest@[k].start,
            decreases rest@.len() - mj,
        {
            if rest[mj].start < rest[mi].start {
                mi = mj;
            }
            mj = mj + 1;
        }
        let ghost old_rest = rest@;
        let s = rest.remove(mi);
        proof {
            assert(rest@ == old_rest.remove(mi as int));
            assert forall|j: int| 0 <= j < rest@.len() implies (#[trigger] rest@[j]) == if j
                < mi {
                old_rest[j]
            } else {
                old_rest[j + 1]
            } by {
                assert(rest@ =~= old_rest.take(mi as int) + old_rest.skip(mi as int + 1));
            }
            // The extracted minimum clears every remaining span: they do
            // not overlap it and start no earlier, so they start at or
            // after its end.
            assert forall|j: int| 0 <= j < rest@.len() implies s.end <= (#[trigger] rest@[
            j]).start by {
                let jo = if j < mi {
                    j
                } else {
                    j + 1
                };
                assert(old_rest[jo] == rest@[j]);
                assert(!spans_overlap_sym(s, old_rest[jo]));
            }
        }
        out.push(s);
    }
    proof {
        if matches@.len() > 0 {
            assert(kept0.len() > 0);
            assert(out@.len() > 0);
        }
        if out@.len() > 0 {
            assert(matches@.contains(out@[0]));
            assert(matches@.len() > 0);
        }
    }
    out
}

/// Overlap is symmetric; naming one orientation keeps the proofs short.
spec fn spans_overlap_sym(x: MatchSpan, y: MatchSpan) -> bool {
    spans_overlap(x, y) || spans_overlap(y, x)
}

/// An occurrence found from position `i` on lies at or past `i` and really
/// is an occurrence.
proof fn lemma_first_occurrence_bounds(h: Seq<char>, n: Seq<char>, i: int)
    requires
        first_occurrence_from(h, n, i) is Some,
    ensures
        i <= first_occurrence_from(h, n, i).unwrap(),
        occurs_at(h, n, first_occurrence_from(h, n, i).unwrap()),
    decreases h.len() - i + 1,
{
    if !(i < 0 || i + n.len() > h.len()) && !occurs_at(h, n, i) {
        lemma_first_occurrence_bounds(h, n, i + 1);
    }
}

/// An accepting candidate leaves room for at least a minimal window.
proof fn lemma_accepts_bounds(hf: Seq<char>, nf: Seq<char>, c: int, t: Score)
    requires
        accepts(hf, nf, c, t),
    ensures
        0 <= c,
        c + nf.len() <= hf.len(),
{
    let w = choose|w: int| window_accepts(hf, nf, c, w, t);
    assert(nf.len() <= w && c + w <= hf.len());
}

/// A candidate start registered by some anchor occurrence below `bound`.
spec fn anchor_start_below(hf: Seq<char>, nf: Seq<char>, c: int, bound: int) -> bool {
    exists|p: int| p < bound && anchor_at(hf, anchor_of(nf), p) && c == anchor_candidate(p)
}

/// No anchor occurrence lies below `bound`.
spec fn no_anchor_below(hf: Seq<char>, nf: Seq<char>, bound: int) -> bool {
    forall|p: int| p < bound ==> !anchor_at(hf, anchor_of(nf), p)
}

/// Whether the anchor prefix of `needle_lower` occurs verbatim at `p`.
fn anchor_matches_at(haystack: &Vec<char>, needle_lower: &Vec<char>, p: usize, alen: usize) -> (r:
    bool)
    requires
        p + alen <= haystack@.len(),
        alen <= needle_lower@.len(),
    ensures
        r == anchor_at(haystack@, needle_lower@.take(alen as int), p as int),
{
    let hl = haystack.len();
    let mut j: usize = 0;
    let mut mismatch: bool = false;
    while j < alen && !mismatch
        invariant
            j <= alen,
            p + alen <= hl == haystack@.len(),
            alen <= needle_lower@.len(),
            !mismatch ==> forall|k: int|
                0 <= k < j ==> haystack@[p + k] == #[trigger] needle_lower@[k],
            mismatch ==> exists|k: int|
                0 <= k < alen && haystack@[p + k] != #[trigger] needle_lower@[k],
        decreases alen - j, (if mismatch { 0int } else { 1int }),
    {
        if haystack[p + j] != needle_lower[j] {
            mismatch = true;
        } else {
            j = j + 1;
        }
    }
    let ghost anchor = needle_lower@.take(alen as int);
    if !mismatch {
        proof {
            assert(haystack@.subrange(p as int, p + alen as int) =~= anchor);
        }
        true
    } else {
        proof {
            let k = choose|k: int|
                0 <= k < alen && haystack@[p + k] != #[trigger] needle_lower@[k];
            assert(haystack@.subrange(p as int, p + alen as int)[k] != anchor[k]);
        }
        false
    }
}

/// Collects the candidate starts for one search: anchor-registered starts
/// where the anchor occurs, evenly strided starts otherwise.
fn collect_candidates(haystack: &Vec<char>, needle_lower: &Vec<char>) -> (r: Vec<usize>)
    requires
        needle_lower@.len() >= 1,
    ensures
        forall|j: int|
            0 <= j < r@.len() ==> is_candidate(haystack@, needle_lower@, #[trigger] r@[j] as int),
        forall|c: int|
            is_candidate(haystack@, needle_lower@, c) ==> exists|j: int|
                0 <= j < r@.len() && #[trigger] r@[j] as int == c,
{
    let ghost hf = haystack@;
    let ghost nf = needle_lower@;
    let needle_len = needle_lower.len();
    let haystack_len = haystack.len();

    let mut alen: usize = needle_len / 6;
    if alen < 2 {
        alen = 2;
    }
    if alen > 8 {
        alen = 8;
    }
    assert(alen as int == anchor_length(nf.len() as int));

    let mut candidate_starts: Vec<usize> = Vec::new();

    if alen <= needle_len && alen <= haystack_len {
        let mut p: usize = 0;
        while p <= haystack_len - alen
            invariant
                alen as int == anchor_length(nf.len() as int),
                alen <= needle_len == nf.len(),
                alen <= haystack_len == hf.len(),
                hf == haystack@,
                nf == needle_lower@,
                p <= haystack_len - alen + 1,
                forall|j: int|
                    0 <= j < candidate_starts@.len() ==> anchor_start_below(
                        hf,
                        nf,
                        #[trigger] candidate_starts@[j] as int,
                        p as int,
                    ),
                forall|q: int|
                    0 <= q < p && anchor_at(hf, anchor_of(nf), q) ==> exists|j: int|
                        0 <= j < candidate_starts@.len() && #[trigger] candidate_starts@[j] as int
                            == anchor_candidate(q),
                candidate_starts@.len() == 0 <==> no_anchor_below(hf, nf, p as int),
            decreases haystack_len - alen - p + 1,
        {
            let hit = anchor_matches_at(haystack, needle_lower, p, alen);
            let ghost old_starts = candidate_starts@;
            proof {
                assert(anchor_of(nf) == needle_lower@.take(alen as int));
            }
            if hit {
                let start: usize = if p >= 3 {
                    p - 3
                } else {
                    0
                };
                assert(start as int == anchor_candidate(p as int));
                let clen = candidate_starts.len();
                if clen == 0 || candidate_starts[clen - 1] != start {
                    candidate_starts.push(start);
                }
                proof {
                    let newlen = candidate_starts@.len() as int;
                    assert(candidate_starts@[newlen - 1] as int == anchor_candidate(p as int));
                    assert forall|j: int| 0 <= j < candidate_starts@.len() implies
                        anchor_start_below(
                        hf,
                        nf,
                        #[trigger] candidate_starts@[j] as int,
                        p + 1 as int,
                    ) by {
                        if j < old_starts.len() && candidate_starts@[j] == old_starts[j] {
                            let q = choose|q: int|
                                q < p && anchor_at(hf, anchor_of(nf), q) && old_starts[j] as int
                                    == anchor_candidate(q);
                            assert(q < p + 1 && anchor_at(hf, anchor_of(nf), q)
                                && candidate_starts@[j] as int == anchor_candidate(q));
                        } else {
                            assert(candidate_starts@[j] as int == anchor_candidate(p as int));
                            assert((p as int) < p + 1 && anchor_at(hf, anchor_of(nf), p as int));
                        }
                    }
                    assert forall|q: int|
                        0 <= q < p + 1 && anchor_at(hf, anchor_of(nf), q) implies exists|j: int|
                        0 <= j < candidate_starts@.len() && #[trigger] candidate_starts@[j] as int
                            == anchor_candidate(q) by {
                        if q < p {
                            let j = choose|j: int|
                                0 <= j < old_starts.len() && #[trigger] old_starts[j] as int
                                    == anchor_candidate(q);
                            assert(candidate_starts@[j] as int == anchor_candidate(q));
                        } else {
                            assert(candidate_starts@[newlen - 1] as int == anchor_candidate(q));
                        }
                    }
                    assert(!no_anchor_below(hf, nf, p + 1 as int));
                }
            } else {
                proof {
                    assert(!anchor_at(hf, anchor_of(nf), p as int));
                    assert forall|j: int| 0 <= j < candidate_starts@.len() implies
                        anchor_start_below(
                        hf,
                        nf,
                        #[trigger] candidate_starts@[j] as int,
                        p + 1 as int,
                    ) by {
                        let q = choose|q: int|
                            q < p && anchor_at(hf, anchor_of(nf), q) && old_starts[j] as int
                                == anchor_candidate(q);
                        assert(q < p + 1 && anchor_at(hf, anchor_of(nf), q)
                            && candidate_starts@[j] as int == anchor_candidate(q));
                    }
                    if candidate_starts@.len() == 0 {
                        assert forall|q: int| q < p + 1 implies !anchor_at(
                            hf,
                            anchor_of(nf),
                            q,
                        ) by {
                            if q < p {
                                assert(!anchor_at(hf, anchor_of(nf), q));
                            }
                        }
                    } else {
                        let q = choose|q: int| q < p && anchor_at(hf, anchor_of(nf), q);
                        assert(q < p + 1 && anchor_at(hf, anchor_of(nf), q));
                        assert(!no_anchor_below(hf, nf, p + 1 as int));
                    }
                }
            }
            p = p + 1;
        }
        proof {
            assert forall|q: int| anchor_at(hf, anchor_of(nf), q) implies q
                < haystack_len - alen + 1 by {
                assert(anchor_of(nf).len() == alen);
            }
        }
    } else {
        proof {
            if alen <= needle_len {
                // The haystack is shorter than the anchor: it never occurs.
                assert forall|q: int| !anchor_at(hf, anchor_of(nf), q) by {
                    assert(anchor_of(nf).len() == alen);
                }
            }
        }
    }

    if candidate_starts.len() == 0 {
        proof {
            assert(!has_anchor(hf, nf));
        }
        let step: usize = if needle_len / 4 >= 1 {
            needle_len / 4
        } else {
            1
        };
        assert(step as int == fallback_stride(nf.len() as int));
        let bound: usize = if haystack_len >= needle_len - 1 {
            haystack_len - (needle_len - 1)
        } else {
            0
        };
        let mut c: usize = 0;
        while c < bound
            invariant_except_break
                c as int == candidate_starts@.len() * step as int,
            invariant
                step as int == fallback_stride(nf.len() as int),
                1 <= step,
                needle_len == nf.len(),
                haystack_len == hf.len(),
                hf == haystack@,
                nf == needle_lower@,
                bound as int == if hf.len() >= nf.len() - 1 {
                    hf.len() - nf.len() + 1
                } else {
                    0
                },
                !has_anchor(hf, nf),
                forall|j: int|
                    0 <= j < candidate_starts@.len() ==> #[trigger] candidate_starts@[j] as int == j
                        * step as int && candidate_starts@[j] < bound,
            ensures
                bound as int <= candidate_starts@.len() * step as int,
            decreases bound - c,
        {
            let ghost oldlen = candidate_starts@.len();
            candidate_starts.push(c);
            proof {
                assert((oldlen + 1) * step as int == oldlen * step as int + step as int)
                    by (nonlinear_arith);
            }
            if bound - c <= step {
                break ;
            }
            c = c + step;
        }
        proof {
            assert forall|cp: int| is_candidate(hf, nf, cp) implies exists|j: int|
                0 <= j < candidate_starts@.len() && #[trigger] candidate_starts@[j] as int
                    == cp by {
                assert(0 <= cp && cp + nf.len() <= hf.len() && cp % step as int == 0);
                assert(cp < bound as int);
                assert(candidate_starts@.len() * step as int >= bound as int);
                let k = cp / step as int;
                vstd::arithmetic::div_mod::lemma_fundamental_div_mod(cp, step as int);
                assert(cp == step as int * k);
                assert(0 <= k < candidate_starts@.len()) by (nonlinear_arith)
                    requires
                        step >= 1,
                        cp == step as int * k,
                        0 <= cp < candidate_starts@.len() * step as int,
                ;
                assert(candidate_starts@[k] as int == k * step as int);
                assert(candidate_starts@[k] as int == cp) by (nonlinear_arith)
                    requires
                        candidate_starts@[k] as int == k * step as int,
                        cp == step as int * k,
                ;
            }
            assert forall|j: int| 0 <= j < candidate_starts@.len() implies is_candidate(
                hf,
                nf,
                #[trigger] candidate_starts@[j] as int,
            ) by {
                assert(candidate_starts@[j] as int == j * step as int);
                assert(candidate_starts@[j] as int % step as int == 0) by (nonlinear_arith)
                    requires
                        step >= 1,
                        candidate_starts@[j] as int == j * step as int,
                ;
            }
        }
    } else {
        proof {
            assert(has_anchor(hf, nf));
            assert forall|cp: int| is_candidate(hf, nf, cp) implies exists|j: int|
                0 <= j < candidate_starts@.len() && #[trigger] candidate_starts@[j] as int
                    == cp by {
                let q = choose|q: int|
                    anchor_at(hf, anchor_of(nf), q) && cp == anchor_candidate(q);
                assert(0 <= q);
            }
            assert forall|j: int| 0 <= j < candidate_starts@.len() implies is_candidate(
                hf,
                nf,
                #[trigger] candidate_starts@[j] as int,
            ) by {
                assert(anchor_start_below(hf, nf, candidate_starts@[j] as int, hf.len() as int));
            }
        }
    }
    candidate_starts
}

/// Locates the passage `needle_chars` inside the normalized entry sequence
/// `char_entries`, tolerating extraction noise.
///
/// Both sides are case-folded per character. A verbatim occurrence of the
/// folded needle returns exactly one span at its first position with score
/// one. Otherwise anchor-registered candidate starts (or evenly strided
/// ones) are scored with Jaro-Winkler over window lengths from the needle
/// length up to 1.3 times it, a greedy cursor keeps accepted spans from
/// overlapping, and the result is reconciled by [`deduplicate_matches`].
/// An empty needle or haystack yields an empty result. The threshold must
/// be a positive rational; the result is pinned by [`located`].
pub fn fuzzy_search(
    char_entries: &[(usize, char)],
    needle_chars: &[char],
    threshold: Score,
) -> (r: Vec<MatchSpan>)
    requires
        threshold.wf(),
        threshold.num >= 1,
        needle_chars@.len() <= MAX_NEEDLE_LEN,
    ensures
        located(entry_fold(char_entries@), fold_seq(needle_chars@), threshold, r@),
{
    let ghost hf = entry_fold(char_entries@);
    let ghost nf = fold_seq(needle_chars@);
    let needle_len = needle_chars.len();
    if needle_len == 0 || char_entries.len() == 0 {
        let r: Vec<MatchSpan> = Vec::new();
        proof {
            assert(hf.len() == char_entries@.len());
            assert(nf.len() == needle_chars@.len());
        }
        return r;
    }

    let haystack = fold_entries(char_entries);
    let needle_lower = fold_chars(needle_chars);
    let haystack_len = haystack.len();
    proof {
        assert(haystack@ == hf);
        assert(needle_lower@ == nf);
        assert(hf.len() == char_entries@.len());
        assert(nf.len() == needle_chars@.len());
    }

    match find_exact(haystack.as_slice(), needle_lower.as_slice()) {
        Some(pos) => {
            proof {
                lemma_first_occurrence_bounds(hf, nf, 0);
            }
            let mut r: Vec<MatchSpan> = Vec::new();
            r.push(MatchSpan { start: pos, end: pos + needle_len, score: Score::one() });
            return r;
        },
        None => {},
    }

    let window_min = needle_len;
    let window_max = (13 * needle_len + 9) / 10;
    proof {
        assert(window_max as int == window_cap(nf.len() as int));
    }

    let candidate_starts = collect_candidates(&haystack, &needle_lower);
    let ghost cands = candidate_starts@;

    let mut matches_v: Vec<MatchSpan> = Vec::new();
    let mut last_match_end: usize = 0;
    let mut ci: usize = 0;
    while ci < candidate_starts.len()
        invariant
            ci <= cands.len(),
            cands == candidate_starts@,
            hf == haystack@,
            hf == entry_fold(char_entries@),
            nf == needle_lower@,
            nf == fold_seq(needle_chars@),
            haystack_len == hf.len(),
            1 <= needle_len == nf.len() <= MAX_NEEDLE_LEN,
            window_min == needle_len,
            window_max as int == window_cap(nf.len() as int),
            threshold.wf(),
            threshold.num >= 1,
            last_match_end <= haystack_len,
            forall|k: int|
                0 <= k < matches_v@.len() ==> span_valid(hf.len() as int, #[trigger] matches_v@[k])
                    && span_scored(hf, nf, threshold, matches_v@[k]),
            forall|k: int| 0 <= k < matches_v@.len() ==> (#[trigger] matches_v@[k]).end
                <= last_match_end,
            forall|k1: int, k2: int|
                0 <= k1 < k2 < matches_v@.len() ==> (#[trigger] matches_v@[k1]).end <= (
                #[trigger] matches_v@[k2]).start,
            matches_v@.len() == 0 ==> last_match_end == 0,
            matches_v@.len() > 0 <==> exists|j: int|
                0 <= j < ci && accepts(hf, nf, #[trigger] cands[j] as int, threshold),
            forall|j: int| 0 <= j < cands.len() ==> is_candidate(hf, nf, #[trigger] cands[j] as int),
        decreases cands.len() - ci,
    {
        let start = candidate_starts[ci];
        if start < last_match_end || start >= haystack_len {
            proof {
                if start >= haystack_len {
                    if accepts(hf, nf, start as int, threshold) {
                        lemma_accepts_bounds(hf, nf, start as int, threshold);
                    }
                    assert(!accepts(hf, nf, start as int, threshold));
                } else {
                    assert(last_match_end > 0);
                    assert(matches_v@.len() > 0);
                }
            }
        } else {
            let ghost st = start as int;
            let mut best_score = Score::zero();
            let mut best_end: usize = 0;
            let mut w: usize = window_min;
            let high = Score { num: 97, den: 100 };
            while w <= window_max
                invariant_except_break
                    window_min <= w,
                invariant
                    hf == haystack@,
                    nf == needle_lower@,
                    haystack_len == hf.len(),
                    1 <= needle_len == nf.len() <= MAX_NEEDLE_LEN,
                    window_min == needle_len,
                    window_max as int == window_cap(nf.len() as int),
                    threshold.wf(),
                    threshold.num >= 1,
                    st == start as int,
                    0 <= st < hf.len(),
                    best_end == 0 ==> best_score.num == 0 && best_score.den == 1,
                    best_end == 0 ==> forall|w2: int|
                        window_min <= w2 < w ==> !window_accepts(hf, nf, st, w2, threshold),
                    best_end != 0 ==> start < best_end <= haystack_len && nf.len() <= best_end - st
                        <= window_cap(nf.len() as int) && best_score.wf()
                        && best_score.num as int == spec_jaro_winkler(
                        nf,
                        hf.subrange(st, best_end as int),
                    ).0 && best_score.den as int == spec_jaro_winkler(
                        nf,
                        hf.subrange(st, best_end as int),
                    ).1 && frac_le(
                        threshold.num as int,
                        threshold.den as int,
                        best_score.num as int,
                        best_score.den as int,
                    ),
                ensures
                    best_end == 0 ==> !accepts(hf, nf, st, threshold),
                    best_end != 0 ==> start < best_end <= haystack_len && nf.len() <= best_end - st
                        <= window_cap(nf.len() as int) && best_score.wf()
                        && best_score.num as int == spec_jaro_winkler(
                        nf,
                        hf.subrange(st, best_end as int),
                    ).0 && best_score.den as int == spec_jaro_winkler(
                        nf,
                        hf.subrange(st, best_end as int),
                    ).1 && frac_le(
                        threshold.num as int,
                        threshold.den as int,
                        best_score.num as int,
                        best_score.den as int,
                    ),
                decreases window_max + 1 - w,
            {
                if w > haystack_len - start {
                    proof {
                        if best_end == 0 {
                            assert forall|w2: int| !window_accepts(
                                hf,
                                nf,
                                st,
                                w2,
                                threshold,
                            ) by {
                                if window_min <= w2 < w {
                                } else if w2 >= w {
                                    assert(st + w2 > hf.len());
                                }
                            }
                        }
                    }
                    break ;
                }
                let end = start + w;
                let window = slice_subrange(haystack.as_slice(), start, end);
                proof {
                    assert(window@ == hf.subrange(st, st + w));
                    assert(w <= window_cap(nf.len() as int));
                    assert(window_cap(nf.len() as int) <= window_cap(MAX_NEEDLE_LEN as int));
                    assert(nf.len() <= MAX_COMPARE_LEN);
                }
                let sc = jaro_winkler(needle_lower.as_slice(), window);
                let accept_here = sc.ge(&threshold) && sc.gt(&best_score);
                if accept_here {
                    best_score = sc;
                    best_end = end;
                    if sc.gt(&high) {
                        break ;
                    }
                } else {
                    proof {
                        if best_end == 0 {
                            if frac_le(
                                threshold.num as int,
                                threshold.den as int,
                                sc.num as int,
                                sc.den as int,
                            ) {
                                // With no best yet, any score meeting the
                                // positive threshold beats the zero score.
                                assert(sc.num as int >= 1) by (nonlinear_arith)
                                    requires
                                        threshold.num as int >= 1,
                                        threshold.den as int >= 1,
                                        sc.den as int >= 1,
                                        threshold.num as int * sc.den as int <= sc.num as int
                                            * threshold.den as int,
                                ;
                                assert(frac_lt(0int, 1int, sc.num as int, sc.den as int));
                                assert(false);
                            }
                            assert(!window_accepts(hf, nf, st, w as int, threshold));
                        }
                    }
                }
                w = w + 1;
            }
            proof {
                if best_end == 0 {
                    assert(best_score.num == 0 && best_score.den == 1);
                }
            }
            if best_score.ge(&threshold) {
                proof {
                    assert(best_end != 0);
                }
                matches_v.push(MatchSpan { start, end: best_end, score: best_score });
                last_match_end = best_end;
                proof {
                    assert(is_candidate(hf, nf, start as int));
                    let w_acc = best_end - st;
                    assert(window_accepts(hf, nf, st, w_acc, threshold));
                    assert(accepts(hf, nf, cands[ci as int] as int, threshold));
                }
            } else {
                proof {
                    if best_end != 0 {
                        assert(false);
                    }
                    assert(!accepts(hf, nf, cands[ci as int] as int, threshold));
                }
            }
        }
        ci = ci + 1;
    }

    let result = deduplicate_matches(matches_v);
    proof {
        let rs = result@;
        assert forall|k: int| 0 <= k < rs.len() implies span_valid(hf.len() as int, #[trigger] rs[k])
            && span_scored(hf, nf, threshold, rs[k]) by {
            assert(matches_v@.contains(rs[k]));
            let i = choose|i: int| 0 <= i < matches_v@.len() && matches_v@[i] == rs[k];
        }
        assert forall|k1: int, k2: int| 0 <= k1 < k2 < rs.len() implies (#[trigger] rs[k1]).start
            <= (#[trigger] rs[k2]).start && !spans_overlap(rs[k1], rs[k2]) by {
            assert(rs[k1].end <= rs[k2].start);
            assert(rs[k1].start < rs[k1].end);
        }
        // A span comes back exactly when some candidate accepts.
        if rs.len() > 0 {
            let j = choose|j: int|
                0 <= j < cands.len() && accepts(hf, nf, #[trigger] cands[j] as int, threshold);
            assert(is_candidate(hf, nf, cands[j] as int));
            assert(fuzzy_has_match(hf, nf, threshold));
        }
        if fuzzy_has_match(hf, nf, threshold) {
            let c = choose|c: int|
                is_candidate(hf, nf, c) && accepts(hf, nf, c, threshold);
            let j = choose|j: int| 0 <= j < cands.len() && #[trigger] cands[j] as int == c;
            assert(accepts(hf, nf, cands[j] as int, threshold));
            assert(matches_v@.len() > 0);
            assert(rs.len() > 0);
        }
    }
    result
}

} // verus!
