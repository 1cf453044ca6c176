//! Exact expectations on the locator, its metric, and its reconciliation.

use highlighter::fuzzy::{deduplicate_matches, find_exact, fuzzy_search, MatchSpan};
use highlighter::jaro::jaro_winkler;
use highlighter::score::Score;

fn chars(s: &str) -> Vec<char> {
    s.chars().collect()
}

fn char_entries(s: &str) -> Vec<(usize, char)> {
    s.chars().enumerate().collect()
}

fn threshold(num: u64, den: u64) -> Score {
    Score { num, den }
}

/// The score equals `num/den` as a rational.
fn score_is(s: Score, num: u128, den: u128) -> bool {
    (s.num as u128) * den == num * (s.den as u128)
}

#[test]
fn exact_occurrence_gives_one_span_with_score_one() {
    // A verbatim (case-folded) occurrence short-circuits: one span, at the
    // first occurrence, score 1.
    let haystack = char_entries("wordswithoutspaces");
    let needle = chars("without");
    let results = fuzzy_search(&haystack, &needle, threshold(99, 100));
    assert_eq!(results.len(), 1);
    assert_eq!(results[0].start, 5);
    assert_eq!(results[0].end, 12);
    assert_eq!(results[0].score.num, 1);
    assert_eq!(results[0].score.den, 1);
}

#[test]
fn case_folding_reaches_the_match() {
    // An all-caps needle exact-matches a lowercase haystack only through
    // per-character folding.
    let haystack = char_entries("information");
    let needle = chars("INFORMATION");
    let results = fuzzy_search(&haystack, &needle, threshold(99, 100));
    assert_eq!(results.len(), 1);
    assert_eq!(results[0].start, 0);
    assert_eq!(results[0].end, 11);
    assert!(score_is(results[0].score, 1, 1));
}

#[test]
fn extra_spaces_span_covers_both_words() {
    let haystack = char_entries("the  quick   brown  fox");
    let needle = chars("quick brown");
    let results = fuzzy_search(&haystack, &needle, threshold(75, 100));
    assert_eq!(results.len(), 1);
    assert_eq!(results[0].start, 2);
    assert_eq!(results[0].end, 17);
    assert!(score_is(results[0].score, 751, 990));
}

#[test]
fn hyphenated_match_score_is_exact() {
    let haystack = char_entries("infor-\nmation");
    let needle = chars("information");
    let results = fuzzy_search(&haystack, &needle, threshold(75, 100));
    assert_eq!(results.len(), 1);
    assert_eq!(results[0].start, 0);
    assert_eq!(results[0].end, 13);
    assert!(score_is(results[0].score, 63, 65));
}

#[test]
fn two_noisy_copies_give_two_spans() {
    let haystack = char_entries("abcdefghiX zzz qqq abcdefgXij");
    let needle = chars("abcdefghij");
    let results = fuzzy_search(&haystack, &needle, threshold(75, 100));
    assert_eq!(results.len(), 2);
    assert_eq!((results[0].start, results[0].end), (0, 10));
    assert!(score_is(results[0].score, 24, 25));
    assert_eq!((results[1].start, results[1].end), (16, 29));
    assert!(score_is(results[1].score, 337, 390));
}

#[test]
fn raising_threshold_never_adds_spans_here() {
    // On this input the span count falls as the threshold rises; a needle
    // that finds nothing keeps finding nothing.
    let haystack = char_entries("abcdefghiX zzz qqq abcdefgXij");
    let needle = chars("abcdefghij");
    let lax = fuzzy_search(&haystack, &needle, threshold(75, 100));
    let strict = fuzzy_search(&haystack, &needle, threshold(93, 100));
    let strictest = fuzzy_search(&haystack, &needle, threshold(99, 100));
    assert_eq!(lax.len(), 2);
    assert_eq!(strict.len(), 1);
    assert_eq!(strictest.len(), 0);
}

#[test]
fn no_match_stays_empty_at_higher_threshold() {
    let haystack = char_entries("zzzz zzzz zzzz");
    let needle = chars("absent");
    assert!(fuzzy_search(&haystack, &needle, threshold(60, 100)).is_empty());
    assert!(fuzzy_search(&haystack, &needle, threshold(95, 100)).is_empty());
}

#[test]
fn returned_spans_never_overlap() {
    let haystack = char_entries("abcdefghiX zzz qqq abcdefgXij zz abcdefghiQ");
    let needle = chars("abcdefghij");
    let results = fuzzy_search(&haystack, &needle, threshold(75, 100));
    assert!(results.len() >= 2);
    for i in 0..results.len() {
        for j in 0..results.len() {
            if i != j {
                let a = &results[i];
                let b = &results[j];
                assert!(
                    !(a.start < b.end && a.end > b.start),
                    "spans must not overlap"
                );
            }
        }
        assert!(results[i].start < results[i].end);
    }
    for w in results.windows(2) {
        assert!(w[0].start <= w[1].start, "spans must be sorted by start");
    }
}

#[test]
fn empty_needle_or_haystack_gives_empty_result() {
    let haystack = char_entries("some page text");
    let empty_entries: Vec<(usize, char)> = Vec::new();
    let needle = chars("text");
    let none: Vec<char> = Vec::new();
    assert!(fuzzy_search(&haystack, &none, threshold(85, 100)).is_empty());
    assert!(fuzzy_search(&empty_entries, &needle, threshold(85, 100)).is_empty());
}

#[test]
fn jaro_winkler_classic_pair_is_exact() {
    // martha / marhta: 6 matches, 1 transposition, prefix 3:
    // jaro 17/18, winkler 173/180, unreduced 6228/6480.
    let a = chars("martha");
    let b = chars("marhta");
    let s = jaro_winkler(&a, &b);
    assert_eq!(s.num, 6228);
    assert_eq!(s.den, 6480);
    assert!(score_is(s, 173, 180));
}

#[test]
fn jaro_winkler_identical_and_disjoint() {
    let a = chars("sentence");
    let s = jaro_winkler(&a, &a);
    assert!(score_is(s, 1, 1));
    let b = chars("zzzzz");
    let t = jaro_winkler(&a, &b);
    assert!(score_is(t, 0, 1));
    let empty: Vec<char> = Vec::new();
    assert!(score_is(jaro_winkler(&empty, &empty), 1, 1));
    assert!(score_is(jaro_winkler(&a, &empty), 0, 1));
}

#[test]
fn find_exact_first_occurrence_and_absence() {
    let haystack = chars("abcabcabc");
    assert_eq!(find_exact(&haystack, &chars("cab")), Some(2));
    assert_eq!(find_exact(&haystack, &chars("abc")), Some(0));
    assert_eq!(find_exact(&haystack, &chars("abd")), None);
    assert_eq!(find_exact(&haystack, &chars("abcabcabcd")), None);
}

#[test]
fn deduplicate_keeps_best_of_overlapping_spans() {
    let spans = vec![
        MatchSpan { start: 0, end: 5, score: threshold(4, 5) },
        MatchSpan { start: 3, end: 8, score: threshold(9, 10) },
        MatchSpan { start: 10, end: 12, score: threshold(1, 2) },
    ];
    let kept = deduplicate_matches(spans);
    assert_eq!(kept.len(), 2);
    assert_eq!((kept[0].start, kept[0].end), (3, 8));
    assert_eq!((kept[1].start, kept[1].end), (10, 12));
}

#[test]
fn score_comparisons_are_exact() {
    let a = threshold(1, 3);
    let b = threshold(2, 6);
    let c = threshold(85, 100);
    assert!(a.ge(&b) && b.ge(&a));
    assert!(!a.gt(&b) && !b.gt(&a));
    assert!(c.gt(&a) && c.ge(&a) && !a.ge(&c));
    assert!(Score::one().gt(&Score::zero()));
}
