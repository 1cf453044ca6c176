//! The normalizer, the snapper, the rectangle reconstructor, and the
//! whole pipeline on concrete pages.

use highlighter::chunk::ChunkConfig;
use highlighter::normalize::{expand_ligatures, normalize_stream, RawGlyph};
use highlighter::pipeline::highlight_passage;
use highlighter::rects::{extract_char_bboxes, GlyphInfo};
use highlighter::score::Score;
use highlighter::snap::snap_to_sentence_boundaries;

fn char_entries(s: &str) -> Vec<(usize, char)> {
    s.chars().enumerate().collect()
}

fn raw(s: &str) -> Vec<RawGlyph> {
    s.chars()
        .enumerate()
        .map(|(i, c)| RawGlyph { glyph_index: i, decoded: Some(c) })
        .collect()
}

/// One glyph box per index: a unit cell at x = 1000 * i on one line,
/// whitespace where the page shows whitespace.
fn unit_row(s: &str) -> Vec<GlyphInfo> {
    s.chars()
        .enumerate()
        .map(|(i, c)| {
            if c.is_whitespace() {
                GlyphInfo::Space
            } else {
                GlyphInfo::Ink {
                    left: 1000 * i as i64,
                    bottom: 0,
                    right: 1000 * (i + 1) as i64,
                    top: 1000,
                }
            }
        })
        .collect()
}

#[test]
fn ligatures_expand_and_share_their_glyph_index() {
    assert_eq!(expand_ligatures(7, '\u{FB01}'), vec![(7, 'f'), (7, 'i')]);
    assert_eq!(expand_ligatures(3, '\u{FB00}'), vec![(3, 'f'), (3, 'f')]);
    assert_eq!(expand_ligatures(3, '\u{FB02}'), vec![(3, 'f'), (3, 'l')]);
    assert_eq!(
        expand_ligatures(9, '\u{FB03}'),
        vec![(9, 'f'), (9, 'f'), (9, 'i')]
    );
    assert_eq!(
        expand_ligatures(9, '\u{FB04}'),
        vec![(9, 'f'), (9, 'f'), (9, 'l')]
    );
    assert_eq!(expand_ligatures(1, '\u{FB05}'), vec![(1, 's'), (1, 't')]);
    assert_eq!(expand_ligatures(1, '\u{FB06}'), vec![(1, 's'), (1, 't')]);
    assert_eq!(expand_ligatures(2, 'a'), vec![(2, 'a')]);
}

#[test]
fn invisible_characters_and_undecoded_glyphs_vanish() {
    for c in ['\u{00AD}', '\u{200B}', '\u{200C}', '\u{200D}', '\u{FEFF}', '\u{2060}'] {
        assert_eq!(expand_ligatures(0, c), vec![]);
    }
    let stream = vec![
        RawGlyph { glyph_index: 0, decoded: Some('a') },
        RawGlyph { glyph_index: 1, decoded: Some('\u{00AD}') },
        RawGlyph { glyph_index: 2, decoded: None },
        RawGlyph { glyph_index: 3, decoded: Some('\u{FB01}') },
        RawGlyph { glyph_index: 4, decoded: Some('b') },
    ];
    let entries = normalize_stream(&stream);
    assert_eq!(entries, vec![(0, 'a'), (3, 'f'), (3, 'i'), (4, 'b')]);
}

#[test]
fn normalizing_a_normalized_stream_changes_nothing() {
    let stream = raw("plain text, no ligatures.");
    let once = normalize_stream(&stream);
    let again_input: Vec<RawGlyph> = once
        .iter()
        .map(|&(i, c)| RawGlyph { glyph_index: i, decoded: Some(c) })
        .collect();
    let twice = normalize_stream(&again_input);
    assert_eq!(once, twice);
}

#[test]
fn snap_widens_to_the_containing_sentence() {
    // "Foo bar. Baz qux! More": a span inside the second sentence snaps to
    // just after ". " and just past "!".
    let entries = char_entries("Foo bar. Baz qux! More");
    let (ns, ne) = snap_to_sentence_boundaries(&entries, 9, 12);
    assert_eq!((ns, ne), (9, 17));
    assert!(ns <= 9 && ne >= 12);
}

#[test]
fn snap_absorbs_closing_quotes() {
    let entries = char_entries("He said \"Hi.\" Next");
    let (ns, ne) = snap_to_sentence_boundaries(&entries, 9, 11);
    assert_eq!((ns, ne), (0, 13));
}

#[test]
fn snap_without_any_terminal_runs_to_the_edges() {
    // A page with no sentence-terminal punctuation at all: the span snaps
    // to the whole sequence.
    let entries = char_entries("hello world no punct");
    let (ns, ne) = snap_to_sentence_boundaries(&entries, 6, 11);
    assert_eq!((ns, ne), (0, entries.len()));
}

#[test]
fn ligature_span_merges_into_one_rectangle() {
    // A ligature glyph occupies one box; the two entries it expands to
    // resolve to one merged rectangle using that box.
    let mut glyphs = vec![GlyphInfo::Missing; 8];
    glyphs[7] = GlyphInfo::Ink { left: 10_000, bottom: 20_000, right: 15_000, top: 26_000 };
    let indices = vec![7, 7];
    let rects = extract_char_bboxes(&glyphs, &indices);
    assert_eq!(rects.len(), 1);
    assert_eq!(rects[0].x, 10_000);
    assert_eq!(rects[0].y, 20_000);
    assert_eq!(rects[0].width, 5_000);
    assert_eq!(rects[0].height, 6_000);
}

#[test]
fn rect_count_equals_maximal_same_line_runs() {
    // Two words on one line and one word on another: three maximal runs,
    // three rectangles; a bad index inside a run does not split it.
    let mut glyphs = unit_row("ab cd");
    glyphs.push(GlyphInfo::Ink { left: 0, bottom: 5_000, right: 1_000, top: 6_000 });
    glyphs.push(GlyphInfo::Ink { left: 1_000, bottom: 5_000, right: 2_000, top: 6_000 });
    let indices = vec![0, 1, 99, 2, 3, 4, 5, 6];
    let rects = extract_char_bboxes(&glyphs, &indices);
    assert_eq!(rects.len(), 3);
    assert_eq!((rects[0].x, rects[0].width), (0, 2_000));
    assert_eq!((rects[1].x, rects[1].width), (3_000, 2_000));
    assert_eq!((rects[2].x, rects[2].y, rects[2].width), (0, 5_000, 2_000));
}

#[test]
fn whitespace_closes_missing_skips() {
    let glyphs = unit_row("a b");
    let indices = vec![0, 1, 2];
    let rects = extract_char_bboxes(&glyphs, &indices);
    assert_eq!(rects.len(), 2);
    let skipped = extract_char_bboxes(&glyphs, &vec![0, 50, 2]);
    assert_eq!(skipped.len(), 1);
    assert_eq!(skipped[0].width, 3_000);
}

#[test]
fn pipeline_highlights_the_snapped_sentence() {
    // End to end: normalize, locate (with case folding), snap to the
    // sentence, and reconstruct the word rectangles.
    let page_text = "Hello world. Fine day.";
    let stream = raw(page_text);
    let glyphs = unit_row(page_text);
    let needle: Vec<char> = "FINE DAY".chars().collect();
    let highlights = highlight_passage(
        &stream,
        &glyphs,
        &needle,
        Score { num: 75, den: 100 },
        4,
    );
    assert_eq!(highlights.len(), 1);
    assert_eq!(highlights[0].page, 4);
    // "Fine" and "day." sit on one line, split by the space.
    assert_eq!(highlights[0].rects.len(), 2);
    assert_eq!(highlights[0].rects[0].x, 13_000);
    assert_eq!(highlights[0].rects[0].width, 4_000);
    assert_eq!(highlights[0].rects[1].x, 18_000);
    assert_eq!(highlights[0].rects[1].width, 4_000);
}

#[test]
fn pipeline_without_a_match_highlights_nothing() {
    let page_text = "Hello world. Fine day.";
    let stream = raw(page_text);
    let glyphs = unit_row(page_text);
    let needle: Vec<char> = "unrelated passage".chars().collect();
    let highlights = highlight_passage(
        &stream,
        &glyphs,
        &needle,
        Score { num: 85, den: 100 },
        1,
    );
    assert!(highlights.is_empty());
}

#[test]
fn chunk_config_defaults() {
    let c = ChunkConfig::default();
    assert_eq!(c.small_chunk_size, 50);
    assert_eq!(c.small_chunk_overlap, 5);
    assert_eq!(c.parent_chunk_size, 10000);
    assert_eq!(c.parent_chunk_overlap, 200);
}
