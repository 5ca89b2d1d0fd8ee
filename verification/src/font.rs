//! Which glyph of which font stands for a character, and the sheet that glyphs
//! are drawn on.

use vstd::prelude::*;

use crate::text;
use crate::thin::Line;

verus! {

/// `ab_glyph::FontRef`, a font in memory.
#[verifier::external_type_specification]
#[verifier::external_body]
pub struct ExFontRef<'font>(ab_glyph::FontRef<'font>);

/// The character map of a font: the glyph of each character that has one.
pub uninterp spec fn font_cmap(font: ab_glyph::FontRef<'_>) -> Map<char, u16>;

/// `ab_glyph::Font::glyph_id` on a `FontRef`: the glyph of a character in the
/// font's character map, or zero where the map has none.
#[verifier::external_body]
fn glyph_id(font: &ab_glyph::FontRef<'_>, c: char) -> (id: u16)
    ensures
        id == glyph_in(font_cmap(*font), c),
{
    ab_glyph::Font::glyph_id(font, c).0
}

/// The glyph of a character, zero for none.
pub open spec fn glyph_in(cmap: Map<char, u16>, c: char) -> u16 {
    if cmap.dom().contains(c) {
        cmap[c]
    } else {
        0
    }
}

/// The first font, from number `from` on, with a glyph for a character.
pub open spec fn font_for(cmaps: Seq<Map<char, u16>>, c: char, from: int) -> Option<int>
    decreases cmaps.len() - from,
{
    if from < 0 || from >= cmaps.len() {
        None
    } else if glyph_in(cmaps[from], c) != 0 {
        Some(from)
    } else {
        font_for(cmaps, c, from + 1)
    }
}

/// A glyph in a line of writing: its font, its number, and the glyph before it
/// where the two are set closer or wider than usual.
#[derive(Clone, Copy, PartialEq, Eq, Structural, Debug)]
pub struct Placed {
    pub font: usize,
    pub glyph: u16,
    pub kern_from: Option<u16>,
}

/// The glyphs of a text, and the last of them if it belongs to the last
/// character.
pub open spec fn run(cmaps: Seq<Map<char, u16>>, s: Seq<char>) -> (Seq<Placed>, Option<Placed>)
    decreases s.len(),
{
    if s.len() == 0 {
        (seq![], None)
    } else {
        let (before, prev) = run(cmaps, s.drop_last());
        match font_for(cmaps, s.last(), 0) {
            None => (before, None),
            Some(i) => {
                let glyph = Placed {
                    font: i as usize,
                    glyph: glyph_in(cmaps[i], s.last()),
                    kern_from: match prev {
                        Some(p) if p.font == i => Some(p.glyph),
                        _ => None,
                    },
                };
                (before.push(glyph), Some(glyph))
            },
        }
    }
}

/// Fonts in order of preference.
pub struct FontStack<'font> {
    fonts: Vec<ab_glyph::FontRef<'font>>,
}

impl<'font> FontStack<'font> {
    /// The fonts.
    pub closed spec fn list(&self) -> Seq<ab_glyph::FontRef<'font>> {
        self.fonts@
    }

    /// The character maps of the fonts.
    pub open spec fn cmaps(&self) -> Seq<Map<char, u16>> {
        self.list().map_values(|font: ab_glyph::FontRef<'font>| font_cmap(font))
    }

    /// One font alone.
    pub fn single(font: ab_glyph::FontRef<'font>) -> (r: Self)
        ensures
            r.list() == seq![font],
    {
        let mut fonts: Vec<ab_glyph::FontRef<'font>> = Vec::new();
        fonts.push(font);
        let r = FontStack { fonts };
        assert(r.list() =~= seq![font]);
        r
    }

    /// A font, and those to fall back to.
    pub fn with_fallbacks(
        primary: ab_glyph::FontRef<'font>,
        fallbacks: Vec<ab_glyph::FontRef<'font>>,
    ) -> (r: Self)
        ensures
            r.list() == seq![primary] + fallbacks@,
    {
        let mut fonts: Vec<ab_glyph::FontRef<'font>> = Vec::new();
        fonts.push(primary);
        let mut rest = fallbacks;
        fonts.append(&mut rest);
        let r = FontStack { fonts };
        assert(r.list() =~= seq![primary] + fallbacks@);
        r
    }

    /// How many fonts there are.
    pub fn len(&self) -> (n: usize)
        ensures
            n == self.list().len(),
    {
        self.fonts.len()
    }

    /// One of the fonts.
    pub fn font(&self, i: usize) -> (r: &ab_glyph::FontRef<'font>)
        requires
            i < self.list().len(),
        ensures
            *r == self.list()[i as int],
    {
        &self.fonts[i]
    }

    /// The first font with a glyph for a character, and the glyph.
    pub fn glyph_for(&self, c: char) -> (r: Option<(usize, u16)>)
        ensures
            (match r {
                Some(found) => font_for(self.cmaps(), c, 0) == Some(found.0 as int) && found.0
                    < self.cmaps().len() && found.1 == glyph_in(self.cmaps()[found.0 as int], c)
                    && found.1 != 0,
                None => font_for(self.cmaps(), c, 0) is None,
            }),
    {
        let mut i: usize = 0;
        while i < self.fonts.len()
            invariant
                i <= self.fonts@.len(),
                font_for(self.cmaps(), c, 0) == font_for(self.cmaps(), c, i as int),
            decreases self.fonts@.len() - i,
        {
            assert(self.cmaps()[i as int] == font_cmap(self.fonts@[i as int]));
            let id: u16 = glyph_id(&self.fonts[i], c);
            if id != 0 {
                return Some((i, id));
            }
            i += 1;
        }
        None
    }

    /// The glyphs of a text. A character that no font has is passed over, and
    /// the glyphs around it are set as usual.
    pub fn glyph_run(&self, s: &str) -> (out: Vec<Placed>)
        ensures
            out@ == run(self.cmaps(), s@).0,
    {
        let cs = text::chars_of(s);
        let mut out: Vec<Placed> = Vec::new();
        let mut prev: Option<Placed> = None;
        let mut i: usize = 0;
        assert(cs@.take(0).len() == 0);
        while i < cs.len()
            invariant
                i <= cs@.len(),
                cs@ == s@,
                out@ == run(self.cmaps(), s@.take(i as int)).0,
                prev == run(self.cmaps(), s@.take(i as int)).1,
            decreases cs@.len() - i,
        {
            assert(s@.take(i + 1).drop_last() =~= s@.take(i as int));
            match self.glyph_for(cs[i]) {
                None => {
                    prev = None;
                },
                Some((font, glyph)) => {
                    let kern_from = match prev {
                        Some(p) => if p.font == font {
                            Some(p.glyph)
                        } else {
                            None
                        },
                        None => None,
                    };
                    let placed = Placed { font, glyph, kern_from };
                    out.push(placed);
                    prev = Some(placed);
                },
            }
            i += 1;
        }
        assert(s@.take(i as int) =~= s@);
        out
    }
}

impl Line {
    /// A blank sheet with a margin around `width` by `height` pixels.
    pub fn blank(width: usize, height: usize) -> (r: Line)
        requires
            (width + 4) * (height + 4) <= isize::MAX,
        ensures
            r.width == width + 4,
            r.height == height + 4,
            r.mask@ == Seq::new((r.width * r.height) as nat, |i: int| false),
            r.wf(),
    {
        assert(width + 4 <= (width + 4) * (height + 4) && height + 4 <= (width + 4) * (height + 4))
            by (nonlinear_arith);
        let w: usize = width + 4;
        let h: usize = height + 4;
        let total: usize = w * h;
        let mut mask: Vec<bool> = Vec::new();
        while mask.len() < total
            invariant
                mask@.len() <= total,
                forall|i: int| 0 <= i < mask@.len() ==> !mask@[i],
            decreases total - mask@.len(),
        {
            mask.push(false);
        }
        assert(mask@ =~= Seq::new((w * h) as nat, |i: int| false));
        Line { width: w, height: h, mask }
    }

    /// Inks a pixel, if it is on the sheet.
    pub fn ink(&mut self, x: i32, y: i32)
        requires
            old(self).wf(),
        ensures
            final(self).width == old(self).width,
            final(self).height == old(self).height,
            final(self).wf(),
            final(self).mask@ == (if 0 <= x < old(self).width && 0 <= y < old(self).height {
                old(self).mask@.update(y * old(self).width + x, true)
            } else {
                old(self).mask@
            }),
    {
        if x >= 0 && y >= 0 && (x as usize) < self.width && (y as usize) < self.height {
            let _n: usize = self.mask.len();
            proof {
                crate::raster::lemma_pixel_index(x as int, y as int, self.width as int);
                crate::raster::lemma_pixel_bound(
                    x as int,
                    y as int,
                    self.width as int,
                    self.height as int,
                );
                assert(0 <= y * self.width) by (nonlinear_arith)
                    requires
                        0 <= y,
                        0 <= self.width,
                ;
            }
            let i: usize = y as usize * self.width + x as usize;
            self.mask.set(i, true);
        }
    }
}

/// A font is passed over only if it has no glyph for the character: the
/// preferred font is used wherever it can be.
pub proof fn law_preferred_font_wins(cmaps: Seq<Map<char, u16>>, c: char, from: int)
    requires
        0 <= from,
    ensures
        (match font_for(cmaps, c, from) {
            Some(i) => from <= i < cmaps.len() && glyph_in(cmaps[i], c) != 0 && forall|j: int|
                from <= j < i ==> glyph_in(#[trigger] cmaps[j], c) == 0,
            None => forall|j: int|
                from <= j < cmaps.len() ==> glyph_in(#[trigger] cmaps[j], c) == 0,
        }),
    decreases cmaps.len() - from,
{
    if from < cmaps.len() && glyph_in(cmaps[from], c) == 0 {
        law_preferred_font_wins(cmaps, c, from + 1);
    }
}

/// Kerning is only between neighbours of the same font.
pub proof fn law_kerning_stays_in_a_font(cmaps: Seq<Map<char, u16>>, s: Seq<char>)
    ensures
        ({
            let (glyphs, prev) = run(cmaps, s);
            &&& forall|k: int|
                0 <= k < glyphs.len() && (#[trigger] glyphs[k]).kern_from is Some ==> k > 0
                    && glyphs[k - 1].font == glyphs[k].font && glyphs[k].kern_from == Some(
                    glyphs[k - 1].glyph,
                )
            &&& prev is Some ==> glyphs.len() > 0 && prev == Some(glyphs.last())
            &&& glyphs.len() <= s.len()
        }),
    decreases s.len(),
{
    if s.len() > 0 {
        law_kerning_stays_in_a_font(cmaps, s.drop_last());
        let (before, _) = run(cmaps, s.drop_last());
        let (glyphs, _) = run(cmaps, s);
        law_preferred_font_wins(cmaps, s.last(), 0);
        assert forall|k: int|
            0 <= k < glyphs.len() && (
            #[trigger] glyphs[k]).kern_from is Some implies k > 0 && glyphs[k - 1].font
            == glyphs[k].font && glyphs[k].kern_from == Some(glyphs[k - 1].glyph) by {
            if k < before.len() {
                assert(glyphs[k] == before[k]);
                assert(glyphs[k - 1] == before[k - 1]);
            } else {
                assert(glyphs[k - 1] == before[k - 1]);
            }
        }
    }
}

/// A font has a glyph for the character, and none before it has.
pub open spec fn first_with(cmaps: Seq<Map<char, u16>>, c: char, i: int) -> bool {
    &&& 0 <= i < cmaps.len()
    &&& cmaps[i].dom().contains(c) && cmaps[i][c] != 0
    &&& forall|j: int|
        0 <= j < i ==> !(#[trigger] cmaps[j]).dom().contains(c) || cmaps[j][c] == 0
}

proof fn lemma_first_with(cmaps: Seq<Map<char, u16>>, c: char, i: int)
    requires
        first_with(cmaps, c, i),
    ensures
        font_for(cmaps, c, 0) == Some(i),
{
    law_preferred_font_wins(cmaps, c, 0);
    match font_for(cmaps, c, 0) {
        Some(k) => {
            if k < i {
                assert(!cmaps[k].dom().contains(c) || cmaps[k][c] == 0);
            } else if i < k {
                assert(glyph_in(cmaps[i], c) == 0);
            }
        },
        None => {
            assert(glyph_in(cmaps[i], c) == 0);
        },
    }
}

/// Each character is set in the first font that has it, and two neighbours in
/// one font are kerned; neighbours in two fonts are not.
pub proof fn law_neighbours_are_kerned(
    cmaps: Seq<Map<char, u16>>,
    s: Seq<char>,
    c: char,
    d: char,
    i: int,
    j: int,
)
    requires
        cmaps.len() <= usize::MAX,
        first_with(cmaps, c, i),
        first_with(cmaps, d, j),
    ensures
        run(cmaps, s.push(c).push(d)).0 == run(cmaps, s.push(c)).0.push(
            Placed {
                font: j as usize,
                glyph: cmaps[j][d],
                kern_from: if i == j {
                    Some(cmaps[i][c])
                } else {
                    None
                },
            },
        ),
        run(cmaps, seq![d]).0 == seq![
            Placed { font: j as usize, glyph: cmaps[j][d], kern_from: None },
        ],
{
    lemma_first_with(cmaps, c, i);
    lemma_first_with(cmaps, d, j);
    assert(s.push(c).push(d).drop_last() =~= s.push(c));
    assert(s.push(c).drop_last() =~= s);
    assert(seq![d].drop_last() =~= seq![]);
    assert(run(cmaps, seq![d].drop_last()) == (Seq::<Placed>::empty(), None::<Placed>));
    assert(run(cmaps, seq![d]).0 =~= seq![
        Placed { font: j as usize, glyph: cmaps[j][d], kern_from: None },
    ]);
}

/// A character that no font has is left out, and nothing is kerned across it.
pub proof fn law_a_missing_character_is_left_out(
    cmaps: Seq<Map<char, u16>>,
    s: Seq<char>,
    c: char,
    d: char,
    j: int,
)
    requires
        cmaps.len() <= usize::MAX,
        forall|k: int|
            0 <= k < cmaps.len() ==> !(#[trigger] cmaps[k]).dom().contains(c) || cmaps[k][c] == 0,
        first_with(cmaps, d, j),
    ensures
        run(cmaps, s.push(c)).0 == run(cmaps, s).0,
        run(cmaps, s.push(c).push(d)).0 == run(cmaps, s).0.push(
            Placed { font: j as usize, glyph: cmaps[j][d], kern_from: None },
        ),
{
    law_preferred_font_wins(cmaps, c, 0);
    if let Some(k) = font_for(cmaps, c, 0) {
        assert(!cmaps[k].dom().contains(c) || cmaps[k][c] == 0);
    }
    lemma_first_with(cmaps, d, j);
    assert(s.push(c).push(d).drop_last() =~= s.push(c));
    assert(s.push(c).drop_last() =~= s);
    assert(run(cmaps, s.push(c)) == (run(cmaps, s).0, None::<Placed>));
}

} // verus!
