//! The whole per-page pipeline: normalize, locate, snap, reconstruct.
//!
//! One call takes a page's raw glyph stream, its geometry table, and one
//! passage text, and returns the page highlights: one per accepted,
//! snapped span that yielded at least one non-empty rectangle. Each stage
//! keeps its own exact contract; this module only composes them.

use crate::fuzzy::{entry_fold, fold_seq, fuzzy_search, located, MatchSpan, MAX_NEEDLE_LEN};
use crate::normalize::{normalize_stream, normalized, RawGlyph};
use crate::rects::{
    extract_char_bboxes, glyph_bounded, page_rects, rects_view, resolved, CharBbox, GlyphInfo,
    RectV,
};
use crate::score::Score;
use crate::snap::{entry_chars, snap_end, snap_start, snap_to_sentence_boundaries};
use vstd::prelude::*;

verus! {

/// The highlight rectangles one passage produced on one page.
#[derive(Debug)]
pub struct PageHighlight {
    pub page: usize,
    pub rects: Vec<CharBbox>,
}

/// The mathematical image of one page highlight.
pub open spec fn highlight_view(h: PageHighlight) -> (usize, Seq<RectV>) {
    (h.page, rects_view(h.rects@))
}

/// The mathematical image of a highlight list.
pub open spec fn highlights_view(s: Seq<PageHighlight>) -> Seq<(usize, Seq<RectV>)> {
    s.map_values(|h: PageHighlight| highlight_view(h))
}

/// The glyph indices a span of the entry sequence covers, repeats from
/// ligature expansion included.
pub open spec fn span_indices(entries: Seq<(usize, char)>, s: int, e: int) -> Seq<usize> {
    entries.subrange(s, e).map_values(|p: (usize, char)| p.0)
}

/// The rectangles a snapped range resolves to; an inverted range (which
/// can arise when a span begins inside inter-sentence filler) resolves to
/// nothing.
pub open spec fn snapped_rects(
    entries: Seq<(usize, char)>,
    glyphs: Seq<GlyphInfo>,
    s: int,
    e: int,
) -> Seq<RectV> {
    if 0 <= s <= e <= entries.len() {
        page_rects(resolved(glyphs, span_indices(entries, s, e)))
    } else {
        Seq::empty()
    }
}

/// What one located span contributes: its snapped range's rectangles,
/// when there are any.
pub open spec fn span_contribution(
    entries: Seq<(usize, char)>,
    glyphs: Seq<GlyphInfo>,
    s: MatchSpan,
    page: usize,
) -> Seq<(usize, Seq<RectV>)> {
    let chars = entry_chars(entries);
    let ns = snap_start(chars, s.start as int);
    let ne = snap_end(chars, s.end as int);
    let rects = snapped_rects(entries, glyphs, ns, ne);
    if rects.len() > 0 {
        seq![(page, rects)]
    } else {
        Seq::empty()
    }
}

/// The highlights a list of located spans produces: each span is snapped
/// to sentence boundaries and kept when it yields at least one rectangle.
pub open spec fn spec_highlights(
    entries: Seq<(usize, char)>,
    glyphs: Seq<GlyphInfo>,
    spans: Seq<MatchSpan>,
    page: usize,
) -> Seq<(usize, Seq<RectV>)>
    decreases spans.len(),
{
    if spans.len() == 0 {
        Seq::empty()
    } else {
        span_contribution(entries, glyphs, spans[0], page) + spec_highlights(
            entries,
            glyphs,
            spans.drop_first(),
            page,
        )
    }
}

/// Processing one more span appends its contribution.
proof fn lemma_spec_highlights_push(
    entries: Seq<(usize, char)>,
    glyphs: Seq<GlyphInfo>,
    spans: Seq<MatchSpan>,
    page: usize,
    s: MatchSpan,
)
    ensures
        spec_highlights(entries, glyphs, spans.push(s), page) == spec_highlights(
            entries,
            glyphs,
            spans,
            page,
        ) + span_contribution(entries, glyphs, s, page),
    decreases spans.len(),
{
    if spans.len() == 0 {
        assert(spans.push(s)[0] == s);
        assert(spans.push(s).drop_first() =~= spans);
        assert(spec_highlights(entries, glyphs, spans.push(s), page) =~~= spec_highlights(
            entries,
            glyphs,
            spans,
            page,
        ) + span_contribution(entries, glyphs, s, page));
    } else {
        assert(spans.push(s)[0] == spans[0]);
        assert(spans.push(s).drop_first() =~= spans.drop_first().push(s));
        lemma_spec_highlights_push(entries, glyphs, spans.drop_first(), page, s);
        assert(spec_highlights(entries, glyphs, spans.push(s), page) =~~= spec_highlights(
            entries,
            glyphs,
            spans,
            page,
        ) + span_contribution(entries, glyphs, s, page));
    }
}

/// Snaps each located span to its sentence and reconstructs its highlight
/// rectangles, keeping the spans that yield at least one rectangle.
pub fn highlight_spans(
    char_entries: &[(usize, char)],
    glyphs: &[GlyphInfo],
    spans: &Vec<MatchSpan>,
    page: usize,
) -> (r: Vec<PageHighlight>)
    requires
        forall|k: int|
            0 <= k < spans@.len() ==> (#[trigger] spans@[k]).start <= char_entries@.len()
                && spans@[k].end <= char_entries@.len(),
        forall|k: int| 0 <= k < glyphs@.len() ==> glyph_bounded(#[trigger] glyphs@[k]),
    ensures
        highlights_view(r@) == spec_highlights(char_entries@, glyphs@, spans@, page),
{
    let mut out: Vec<PageHighlight> = Vec::new();
    let mut i: usize = 0;
    while i < spans.len()
        invariant
            i <= spans@.len(),
            forall|k: int|
                0 <= k < spans@.len() ==> (#[trigger] spans@[k]).start <= char_entries@.len()
                    && spans@[k].end <= char_entries@.len(),
            forall|k: int| 0 <= k < glyphs@.len() ==> glyph_bounded(#[trigger] glyphs@[k]),
            highlights_view(out@) == spec_highlights(
                char_entries@,
                glyphs@,
                spans@.take(i as int),
                page,
            ),
        decreases spans@.len() - i,
    {
        let s = spans[i];
        let (new_start, new_end) = snap_to_sentence_boundaries(char_entries, s.start, s.end);
        let mut rects: Vec<CharBbox> = Vec::new();
        let mut have_rects = false;
        if new_start <= new_end {
            let mut indices: Vec<usize> = Vec::new();
            let mut j: usize = new_start;
            while j < new_end
                invariant
                    new_start <= j,
                    new_start <= new_end <= char_entries@.len(),
                    j <= new_end,
                    indices@ == span_indices(char_entries@, new_start as int, j as int),
                decreases new_end - j,
            {
                indices.push(char_entries[j].0);
                proof {
                    assert(indices@ =~= span_indices(char_entries@, new_start as int, j + 1 as int));
                }
                j = j + 1;
            }
            rects = extract_char_bboxes(glyphs, &indices);
            have_rects = rects.len() > 0;
            proof {
                assert(rects_view(rects@) == snapped_rects(
                    char_entries@,
                    glyphs@,
                    new_start as int,
                    new_end as int,
                ));
            }
        }
        proof {
            lemma_spec_highlights_push(char_entries@, glyphs@, spans@.take(i as int), page, s);
            assert(spans@.take(i + 1 as int) =~= spans@.take(i as int).push(spans@[i as int]));
        }
        let ghost ns = snap_start(entry_chars(char_entries@), s.start as int);
        let ghost ne = snap_end(entry_chars(char_entries@), s.end as int);
        let ghost contribution = snapped_rects(char_entries@, glyphs@, ns, ne);
        if have_rects {
            proof {
                assert(rects_view(rects@) == contribution);
                assert(contribution.len() > 0);
                assert(span_contribution(char_entries@, glyphs@, s, page) =~~= seq![
                    (page, contribution),
                ]);
            }
            out.push(PageHighlight { page, rects });
            proof {
                assert(highlights_view(out@) =~~= spec_highlights(
                    char_entries@,
                    glyphs@,
                    spans@.take(i + 1 as int),
                    page,
                ));
            }
        } else {
            proof {
                if new_start <= new_end {
                    assert(rects_view(rects@) == contribution);
                    assert(contribution.len() == 0);
                } else {
                    assert(contribution.len() == 0);
                }
                assert(span_contribution(char_entries@, glyphs@, s, page) =~~= Seq::<
                    (usize, Seq<RectV>),
                >::empty());
                assert(highlights_view(out@) =~~= spec_highlights(
                    char_entries@,
                    glyphs@,
                    spans@.take(i + 1 as int),
                    page,
                ));
            }
        }
        i = i + 1;
    }
    proof {
        assert(spans@.take(spans@.len() as int) =~= spans@);
    }
    out
}

/// Runs the whole pipeline for one passage on one page: normalizes the
/// raw glyph stream, locates the folded passage, snaps each span to its
/// sentence, and reconstructs the highlight rectangles.
///
/// The result is the highlight list of some span list that the locator's
/// contract [`located`] pins down for this input.
pub fn highlight_passage(
    raw_glyphs: &[RawGlyph],
    glyphs: &[GlyphInfo],
    needle_chars: &[char],
    threshold: Score,
    page: usize,
) -> (r: Vec<PageHighlight>)
    requires
        threshold.wf(),
        threshold.num >= 1,
        needle_chars@.len() <= MAX_NEEDLE_LEN,
        forall|k: int| 0 <= k < glyphs@.len() ==> glyph_bounded(#[trigger] glyphs@[k]),
    ensures
        exists|spans: Seq<MatchSpan>|
            #[trigger] located(
                entry_fold(normalized(raw_glyphs@)),
                fold_seq(needle_chars@),
                threshold,
                spans,
            ) && highlights_view(r@) == spec_highlights(
                normalized(raw_glyphs@),
                glyphs@,
                spans,
                page,
            ),
{
    let entries = normalize_stream(raw_glyphs);
    let spans = fuzzy_search(entries.as_slice(), needle_chars, threshold);
    proof {
        assert forall|k: int| 0 <= k < spans@.len() implies (#[trigger] spans@[k]).start
            <= entries@.len() && spans@[k].end <= entries@.len() by {
            assert(entry_fold(entries@).len() == entries@.len());
        }
    }
    let r = highlight_spans(entries.as_slice(), glyphs, &spans, page);
    proof {
        let witness = spans@;
        assert(located(
            entry_fold(normalized(raw_glyphs@)),
            fold_seq(needle_chars@),
            threshold,
            witness,
        ) && highlights_view(r@) == spec_highlights(normalized(raw_glyphs@), glyphs@, witness, page));
    }
    r
}

} // verus!
