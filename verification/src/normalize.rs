//! Stream normalization.
//!
//! The text layer of a page hands over one [`RawGlyph`] per rendered glyph,
//! in reading order. Matching wants a flat character sequence, so this stage
//! drops invisible formatting characters, decomposes ligature code points
//! into their constituent letters (each letter keeping the index of the one
//! source glyph, whose box they all share), and drops glyphs that decoded to
//! nothing. Every other glyph passes through unchanged.

use vstd::prelude::*;

verus! {

/// One glyph as handed over by the page's text layer: the stable index used
/// later for geometry lookup, and the decoded character, if any.
#[derive(Clone, Copy, Debug)]
pub struct RawGlyph {
    pub glyph_index: usize,
    pub decoded: Option<char>,
}

/// Invisible formatting characters that produce no output entry: soft
/// hyphen, zero-width space, zero-width non-joiner, zero-width joiner,
/// byte-order mark and word joiner.
pub open spec fn is_dropped_char(c: char) -> bool {
    c == '\u{00AD}' || c == '\u{200B}' || c == '\u{200C}' || c == '\u{200D}' || c == '\u{FEFF}'
        || c == '\u{2060}'
}

/// Ligature code points that decompose into several letters.
pub open spec fn is_ligature_char(c: char) -> bool {
    c == '\u{FB00}' || c == '\u{FB01}' || c == '\u{FB02}' || c == '\u{FB03}' || c == '\u{FB04}'
        || c == '\u{FB05}' || c == '\u{FB06}'
}

/// Neither dropped nor decomposed: the character passes through unchanged.
pub open spec fn is_plain_char(c: char) -> bool {
    !is_dropped_char(c) && !is_ligature_char(c)
}

/// The entries that one decoded character contributes: nothing for an
/// invisible character, the constituent letters for a ligature (all carrying
/// the same source index), and the character itself otherwise.
pub open spec fn expansion(idx: usize, c: char) -> Seq<(usize, char)> {
    if is_dropped_char(c) {
        Seq::empty()
    } else if c == '\u{FB00}' {
        seq![(idx, 'f'), (idx, 'f')]
    } else if c == '\u{FB01}' {
        seq![(idx, 'f'), (idx, 'i')]
    } else if c == '\u{FB02}' {
        seq![(idx, 'f'), (idx, 'l')]
    } else if c == '\u{FB03}' {
        seq![(idx, 'f'), (idx, 'f'), (idx, 'i')]
    } else if c == '\u{FB04}' {
        seq![(idx, 'f'), (idx, 'f'), (idx, 'l')]
    } else if c == '\u{FB05}' || c == '\u{FB06}' {
        seq![(idx, 's'), (idx, 't')]
    } else {
        seq![(idx, c)]
    }
}

/// The entries one raw glyph contributes; a glyph with no decoded character
/// contributes nothing.
pub open spec fn glyph_expansion(g: RawGlyph) -> Seq<(usize, char)> {
    match g.decoded {
        Some(c) => expansion(g.glyph_index, c),
        None => Seq::empty(),
    }
}

/// The canonical entry sequence of a whole raw stream.
pub open spec fn normalized(s: Seq<RawGlyph>) -> Seq<(usize, char)>
    decreases s.len(),
{
    if s.len() == 0 {
        Seq::empty()
    } else {
        glyph_expansion(s[0]) + normalized(s.drop_first())
    }
}

/// Appending one raw glyph appends its expansion.
proof fn lemma_normalized_push(s: Seq<RawGlyph>, g: RawGlyph)
    ensures
        normalized(s.push(g)) == normalized(s) + glyph_expansion(g),
    decreases s.len(),
{
    if s.len() == 0 {
        assert(s.push(g).drop_first() =~= s);
        assert(normalized(s.push(g)) =~= normalized(s) + glyph_expansion(g));
    } else {
        assert(s.push(g).drop_first() =~= s.drop_first().push(g));
        lemma_normalized_push(s.drop_first(), g);
        assert(normalized(s.push(g)) =~= normalized(s) + glyph_expansion(g));
    }
}

/// The entries one decoded character contributes, as executable code.
pub fn expand_ligatures(pdf_idx: usize, ch: char) -> (r: Vec<(usize, char)>)
    ensures
        r@ == expansion(pdf_idx, ch),
{
    let mut r: Vec<(usize, char)> = Vec::new();
    if ch == '\u{00AD}' || ch == '\u{200B}' || ch == '\u{200C}' || ch == '\u{200D}' || ch
        == '\u{FEFF}' || ch == '\u{2060}' {
    } else if ch == '\u{FB00}' {
        r.push((pdf_idx, 'f'));
        r.push((pdf_idx, 'f'));
    } else if ch == '\u{FB01}' {
        r.push((pdf_idx, 'f'));
        r.push((pdf_idx, 'i'));
    } else if ch == '\u{FB02}' {
        r.push((pdf_idx, 'f'));
        r.push((pdf_idx, 'l'));
    } else if ch == '\u{FB03}' {
        r.push((pdf_idx, 'f'));
        r.push((pdf_idx, 'f'));
        r.push((pdf_idx, 'i'));
    } else if ch == '\u{FB04}' {
        r.push((pdf_idx, 'f'));
        r.push((pdf_idx, 'f'));
        r.push((pdf_idx, 'l'));
    } else if ch == '\u{FB05}' || ch == '\u{FB06}' {
        r.push((pdf_idx, 's'));
        r.push((pdf_idx, 't'));
    } else {
        r.push((pdf_idx, ch));
    }
    proof {
        assert(r@ =~= expansion(pdf_idx, ch));
    }
    r
}

/// Canonicalizes a whole raw glyph stream into the flat entry sequence that
/// the locator and the snapper work on.
pub fn normalize_stream(raw: &[RawGlyph]) -> (r: Vec<(usize, char)>)
    ensures
        r@ == normalized(raw@),
{
    let mut r: Vec<(usize, char)> = Vec::new();
    let mut i: usize = 0;
    while i < raw.len()
        invariant
            i <= raw@.len(),
            r@ == normalized(raw@.take(i as int)),
        decreases raw@.len() - i,
    {
        let g = raw[i];
        match g.decoded {
            Some(c) => {
                let mut piece = expand_ligatures(g.glyph_index, c);
                r.append(&mut piece);
            },
            None => {},
        }
        proof {
            lemma_normalized_push(raw@.take(i as int), raw@[i as int]);
            assert(raw@.take(i + 1 as int) =~= raw@.take(i as int).push(raw@[i as int]));
        }
        i = i + 1;
    }
    proof {
        assert(raw@.take(raw@.len() as int) =~= raw@);
    }
    r
}

/// Every entry a normalization produces is plain: invisible characters are
/// gone and ligatures are already decomposed.
pub proof fn lemma_normalized_plain(s: Seq<RawGlyph>)
    ensures
        forall|k: int| 0 <= k < normalized(s).len() ==> is_plain_char(#[trigger] normalized(s)[k].1),
    decreases s.len(),
{
    if s.len() > 0 {
        lemma_normalized_plain(s.drop_first());
        assert forall|k: int| 0 <= k < normalized(s).len() implies is_plain_char(
            #[trigger] normalized(s)[k].1,
        ) by {
            let head = glyph_expansion(s[0]);
            if k < head.len() {
                assert(normalized(s)[k] == head[k]);
            } else {
                assert(normalized(s)[k] == normalized(s.drop_first())[k - head.len()]);
            }
        }
    }
}

/// An entry sequence read back as a raw stream, every entry decoded.
pub open spec fn entries_as_raw(e: Seq<(usize, char)>) -> Seq<RawGlyph> {
    e.map(|k: int, p: (usize, char)| RawGlyph { glyph_index: p.0, decoded: Some(p.1) })
}

/// Normalization is idempotent: a sequence that contains no ligature and no
/// invisible character — in particular, any output of [`normalize_stream`] —
/// comes back unchanged when it is normalized again.
pub proof fn lemma_normalize_idempotent(e: Seq<(usize, char)>)
    requires
        forall|k: int| 0 <= k < e.len() ==> is_plain_char(#[trigger] e[k].1),
    ensures
        normalized(entries_as_raw(e)) == e,
    decreases e.len(),
{
    if e.len() == 0 {
        assert(normalized(entries_as_raw(e)) =~= e);
    } else {
        lemma_normalize_idempotent(e.drop_first());
        assert(entries_as_raw(e).drop_first() =~= entries_as_raw(e.drop_first()));
        assert(expansion(e[0].0, e[0].1) =~= seq![e[0]]);
        assert(normalized(entries_as_raw(e)) =~= e);
    }
}

} // verus!
