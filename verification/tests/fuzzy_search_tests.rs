//! The locator on the noisy extraction shapes PDF text layers produce.

use highlighter::fuzzy::fuzzy_search;
use highlighter::score::Score;

fn chars(s: &str) -> Vec<char> {
    s.chars().collect()
}

/// Wraps a plain string into the (glyph index, char) entries the locator
/// expects.
fn char_entries(s: &str) -> Vec<(usize, char)> {
    s.chars().enumerate().collect()
}

fn threshold(num: u64, den: u64) -> Score {
    Score { num, den }
}

#[test]
fn fuzzy_search_hyphenated_word_matches_clean() {
    // PDF sometimes breaks "information" as "infor-\nmation"
    let haystack = char_entries("infor-\nmation");
    let needle = chars("information");
    let results = fuzzy_search(&haystack, &needle, threshold(75, 100));
    assert!(
        !results.is_empty(),
        "hyphenated word should fuzzy-match clean needle"
    );
}

#[test]
fn fuzzy_search_extra_spaces_between_words() {
    // PDF columns or justified text can produce runs of spaces
    let haystack = char_entries("the  quick   brown  fox");
    let needle = chars("quick brown");
    let results = fuzzy_search(&haystack, &needle, threshold(75, 100));
    assert!(!results.is_empty(), "extra spaces should still fuzzy-match");
}

#[test]
fn fuzzy_search_mid_word_hyphen_with_newline() {
    // "self-\ncontained" from a PDF line break
    let haystack = char_entries("a self-\ncontained system");
    let needle = chars("self-contained");
    let results = fuzzy_search(&haystack, &needle, threshold(75, 100));
    assert!(
        !results.is_empty(),
        "soft-hyphen line break should still match"
    );
}

#[test]
fn fuzzy_search_soft_hyphen_invisible() {
    // U+00AD soft hyphen is sometimes injected by PDF encoders mid-word
    let haystack = char_entries("compre\u{00AD}hensive");
    let needle = chars("comprehensive");
    let results = fuzzy_search(&haystack, &needle, threshold(75, 100));
    assert!(
        !results.is_empty(),
        "soft hyphen mid-word should still fuzzy-match"
    );
}

#[test]
fn fuzzy_search_double_spaced_sentence() {
    // Old PDF typewriter convention: two spaces after a period
    let haystack = char_entries("the  result.  The  value  is  correct");
    let needle = chars("result. The value");
    let results = fuzzy_search(&haystack, &needle, threshold(75, 100));
    assert!(
        !results.is_empty(),
        "double-spaced text should fuzzy-match clean needle"
    );
}

#[test]
fn fuzzy_search_missing_space_after_extraction() {
    // PDF glyph spacing sometimes causes spaces to be dropped entirely
    let haystack = char_entries("wordswithoutspaces");
    let needle = chars("without");
    let results = fuzzy_search(&haystack, &needle, threshold(99, 100));
    assert!(
        !results.is_empty(),
        "substring without spaces should still exact-match"
    );
}

#[test]
fn fuzzy_search_curly_quotes_vs_straight() {
    // PDF fonts often encode " as \u{201C}/\u{201D}
    let haystack = char_entries("\u{201C}quoted text\u{201D}");
    let needle = chars("\"quoted text\"");
    let results = fuzzy_search(&haystack, &needle, threshold(75, 100));
    assert!(
        !results.is_empty(),
        "curly quotes should fuzzy-match straight quotes"
    );
}

#[test]
fn fuzzy_search_em_dash_vs_hyphen() {
    // PDFs frequently encode em-dashes (—) where the source had a hyphen
    let haystack = char_entries("well\u{2014}known");
    let needle = chars("well-known");
    let results = fuzzy_search(&haystack, &needle, threshold(75, 100));
    assert!(!results.is_empty(), "em-dash should fuzzy-match hyphen");
}
