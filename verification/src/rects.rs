//! Glyph bounding-box reconstruction.
//!
//! A snapped span is a run of glyph indices; each index resolves, through
//! the page's geometry table, to a box, to whitespace, or to nothing. This
//! stage merges consecutive same-line boxes into one rectangle per visual
//! run: whitespace closes the open rectangle, an unresolvable index is
//! skipped, and a jump to another line closes the current rectangle and
//! opens a new one.
//!
//! Coordinates are integers in thousandths of the page's coordinate unit,
//! so that the same-line test (a vertical distance below two units) and all
//! merging arithmetic are exact.

use vstd::prelude::*;

verus! {

/// Two page coordinate units, in thousandths: glyphs whose bottom edges are
/// closer than this are treated as sitting on the same visual line.
pub const SAME_LINE_EPSILON: i64 = 2000;

/// Magnitude bound on incoming glyph coordinates, in thousandths. Any real
/// page is far smaller; the bound keeps the merging arithmetic in range.
pub const COORD_LIMIT: i64 = 1_000_000_000_000;

/// What the geometry lookup knows about one glyph index.
#[derive(Clone, Copy, Debug)]
pub enum GlyphInfo {
    /// The lookup failed; the glyph is skipped.
    Missing,
    /// A whitespace glyph: never drawn, closes the open rectangle.
    Space,
    /// A visible glyph with its box edges, in thousandths of a unit.
    Ink { left: i64, bottom: i64, right: i64, top: i64 },
}

/// A highlight rectangle: origin and extent in thousandths of a unit.
#[derive(Clone, Copy, Debug)]
pub struct CharBbox {
    pub x: i64,
    pub y: i64,
    pub width: i64,
    pub height: i64,
}

/// The mathematical image of a rectangle.
pub struct RectV {
    pub x: int,
    pub y: int,
    pub width: int,
    pub height: int,
}

impl View for CharBbox {
    type V = RectV;

    open spec fn view(&self) -> RectV {
        RectV { x: self.x as int, y: self.y as int, width: self.width as int, height: self.height as int }
    }
}

/// The rectangle a single visible glyph opens.
pub open spec fn glyph_rect(left: int, bottom: int, right: int, top: int) -> RectV {
    RectV { x: left, y: bottom, width: right - left, height: top - bottom }
}

/// All coordinates of a glyph lie within [`COORD_LIMIT`].
pub open spec fn glyph_bounded(g: GlyphInfo) -> bool {
    match g {
        GlyphInfo::Ink { left, bottom, right, top } => -COORD_LIMIT <= left <= COORD_LIMIT
            && -COORD_LIMIT <= bottom <= COORD_LIMIT && -COORD_LIMIT <= right <= COORD_LIMIT
            && -COORD_LIMIT <= top <= COORD_LIMIT,
        _ => true,
    }
}

/// The glyph's bottom edge sits on the same visual line as the open
/// rectangle's.
pub open spec fn same_line(rect_y: int, y: int) -> bool {
    -(SAME_LINE_EPSILON as int) < rect_y - y < SAME_LINE_EPSILON as int
}

/// One step of the merging state machine: emitted rectangles so far and the
/// open rectangle, advanced by one resolved glyph.
pub open spec fn rect_step(prev: (Seq<RectV>, Option<RectV>), g: GlyphInfo) -> (
    Seq<RectV>,
    Option<RectV>,
) {
    match g {
        GlyphInfo::Missing => prev,
        GlyphInfo::Space => match prev.1 {
            Some(r) => (prev.0.push(r), None),
            None => prev,
        },
        GlyphInfo::Ink { left, bottom, right, top } => {
            let fresh = glyph_rect(left as int, bottom as int, right as int, top as int);
            match prev.1 {
                None => (prev.0, Some(fresh)),
                Some(r) => if same_line(r.y, bottom as int) {
                    let grown = RectV {
                        x: r.x,
                        y: r.y,
                        width: right - r.x,
                        height: if r.height >= fresh.height {
                            r.height
                        } else {
                            fresh.height
                        },
                    };
                    (prev.0, Some(grown))
                } else {
                    (prev.0.push(r), Some(fresh))
                },
            }
        },
    }
}

/// The state machine run over a whole resolved glyph sequence.
pub open spec fn rect_fold(gs: Seq<GlyphInfo>) -> (Seq<RectV>, Option<RectV>)
    decreases gs.len(),
{
    if gs.len() == 0 {
        (Seq::empty(), None)
    } else {
        rect_step(rect_fold(gs.drop_last()), gs.last())
    }
}

/// The rectangles a resolved glyph sequence produces, final flush included.
pub open spec fn page_rects(gs: Seq<GlyphInfo>) -> Seq<RectV> {
    let f = rect_fold(gs);
    match f.1 {
        Some(r) => f.0.push(r),
        None => f.0,
    }
}

/// The run-counting automaton: closed runs so far, and the base line (the
/// bottom edge of the run's first glyph) of the open run, if one is open. A
/// maximal run is a longest stretch of visible glyphs, unbroken by
/// whitespace, whose bottom edges all sit on the line of its first glyph;
/// unresolvable indices are transparent.
pub open spec fn run_step(prev: (int, Option<int>), g: GlyphInfo) -> (int, Option<int>) {
    match g {
        GlyphInfo::Missing => prev,
        GlyphInfo::Space => match prev.1 {
            Some(_) => (prev.0 + 1, None),
            None => prev,
        },
        GlyphInfo::Ink { left, bottom, right, top } => match prev.1 {
            None => (prev.0, Some(bottom as int)),
            Some(y0) => if same_line(y0, bottom as int) {
                prev
            } else {
                (prev.0 + 1, Some(bottom as int))
            },
        },
    }
}

/// The run-counting automaton over a whole sequence.
pub open spec fn run_fold(gs: Seq<GlyphInfo>) -> (int, Option<int>)
    decreases gs.len(),
{
    if gs.len() == 0 {
        (0, None)
    } else {
        run_step(run_fold(gs.drop_last()), gs.last())
    }
}

/// The number of maximal contiguous non-whitespace same-line glyph runs in
/// a resolved sequence.
pub open spec fn run_count(gs: Seq<GlyphInfo>) -> int {
    let f = run_fold(gs);
    match f.1 {
        Some(_) => f.0 + 1,
        None => f.0,
    }
}

/// The rectangle automaton and the run-counting automaton stay in lock
/// step: one rectangle is emitted per closed run, and a rectangle is open
/// exactly while a run is, based on the same line.
proof fn lemma_rects_match_runs(gs: Seq<GlyphInfo>)
    ensures
        rect_fold(gs).0.len() == run_fold(gs).0,
        match rect_fold(gs).1 {
            Some(r) => run_fold(gs).1 == Some(r.y),
            None => run_fold(gs).1 is None,
        },
    decreases gs.len(),
{
    if gs.len() > 0 {
        lemma_rects_match_runs(gs.drop_last());
    }
}

/// One rectangle per maximal run (the final flush counts the open run).
pub proof fn lemma_rect_count_is_run_count(gs: Seq<GlyphInfo>)
    ensures
        page_rects(gs).len() == run_count(gs),
{
    lemma_rects_match_runs(gs);
}

/// How one glyph index resolves: out-of-table indices are missing.
pub open spec fn lookup(table: Seq<GlyphInfo>, idx: int) -> GlyphInfo {
    if 0 <= idx < table.len() {
        table[idx]
    } else {
        GlyphInfo::Missing
    }
}

/// The resolved glyph sequence of a span's index list.
pub open spec fn resolved(table: Seq<GlyphInfo>, indices: Seq<usize>) -> Seq<GlyphInfo> {
    indices.map(|k: int, idx: usize| lookup(table, idx as int))
}

/// The views of a rectangle list.
pub open spec fn rects_view(s: Seq<CharBbox>) -> Seq<RectV> {
    s.map(|k: int, r: CharBbox| r@)
}

/// Reconstructs the highlight rectangles for a span.
///
/// `glyphs` is the page's geometry table, indexed by glyph index; indices
/// beyond the table resolve to [`GlyphInfo::Missing`] and are skipped, so a
/// single bad index never aborts the reconstruction. The result carries one
/// rectangle per maximal contiguous non-whitespace same-line run of the
/// span, in traversal order.
pub fn extract_char_bboxes(glyphs: &[GlyphInfo], pdf_char_indices: &[usize]) -> (r: Vec<CharBbox>)
    requires
        forall|k: int| 0 <= k < glyphs@.len() ==> glyph_bounded(#[trigger] glyphs@[k]),
    ensures
        rects_view(r@) == page_rects(resolved(glyphs@, pdf_char_indices@)),
        r@.len() == run_count(resolved(glyphs@, pdf_char_indices@)),
{
    let ghost gs = resolved(glyphs@, pdf_char_indices@);
    let mut out: Vec<CharBbox> = Vec::new();
    let mut current: Option<CharBbox> = None;
    let mut i: usize = 0;
    while i < pdf_char_indices.len()
        invariant
            i <= pdf_char_indices@.len(),
            gs == resolved(glyphs@, pdf_char_indices@),
            gs.len() == pdf_char_indices@.len(),
            forall|k: int| 0 <= k < glyphs@.len() ==> glyph_bounded(#[trigger] glyphs@[k]),
            rects_view(out@) == rect_fold(gs.take(i as int)).0,
            match current {
                Some(c) => rect_fold(gs.take(i as int)).1 == Some(c@) && -COORD_LIMIT <= c.x
                    <= COORD_LIMIT && -COORD_LIMIT <= c.y <= COORD_LIMIT && -2 * COORD_LIMIT
                    <= c.width <= 2 * COORD_LIMIT && -2 * COORD_LIMIT <= c.height <= 2
                    * COORD_LIMIT,
                None => rect_fold(gs.take(i as int)).1 is None,
            },
        decreases pdf_char_indices@.len() - i,
    {
        let idx = pdf_char_indices[i];
        let info = if idx < glyphs.len() {
            glyphs[idx]
        } else {
            GlyphInfo::Missing
        };
        proof {
            assert(gs[i as int] == lookup(glyphs@, idx as int));
            assert(gs.take(i + 1 as int).drop_last() =~= gs.take(i as int));
            assert(gs.take(i + 1 as int).last() == gs[i as int]);
        }
        match info {
            GlyphInfo::Missing => {},
            GlyphInfo::Space => {
                match current {
                    Some(c) => {
                        out.push(c);
                        current = None;
                        proof {
                            assert(rects_view(out@) =~= rect_fold(gs.take(i + 1 as int)).0);
                        }
                    },
                    None => {},
                }
            },
            GlyphInfo::Ink { left, bottom, right, top } => {
                let x = left;
                let y = bottom;
                let width = right - left;
                let height = top - bottom;
                match current {
                    Some(c) => {
                        let d = c.y - y;
                        if -SAME_LINE_EPSILON < d && d < SAME_LINE_EPSILON {
                            current = Some(
                                CharBbox {
                                    x: c.x,
                                    y: c.y,
                                    width: right - c.x,
                                    height: if c.height >= height {
                                        c.height
                                    } else {
                                        height
                                    },
                                },
                            );
                        } else {
                            out.push(c);
                            current = Some(CharBbox { x, y, width, height });
                            proof {
                                assert(rects_view(out@) =~= rect_fold(gs.take(i + 1 as int)).0);
                            }
                        }
                    },
                    None => {
                        current = Some(CharBbox { x, y, width, height });
                    },
                }
            },
        }
        i = i + 1;
    }
    proof {
        assert(gs.take(gs.len() as int) =~= gs);
    }
    match current {
        Some(c) => {
            out.push(c);
            proof {
                assert(rects_view(out@) =~= page_rects(gs));
            }
        },
        None => {
            proof {
                assert(rects_view(out@) =~= page_rects(gs));
            }
        },
    }
    proof {
        lemma_rect_count_is_run_count(gs);
    }
    out
}

} // verus!
