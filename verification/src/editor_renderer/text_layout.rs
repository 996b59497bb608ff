//! Laying out a line of shaped glyphs: each glyph that has an image is packed
//! into the atlas and placed after the previous one on the line.
use crate::editor_renderer::atlas::{
    added, fits, shelf_start, AtlasView, GlyphAtlas, GlyphImage, GlyphPosition,
};
use crate::editor_renderer::pixels::lemma_put_rows_len;
use vstd::prelude::*;

verus! {

/// A glyph as shaping and rasterizing gave it: the key its image is cached
/// under, the image if it has one, and how far it moves the pen, in pixels.
#[derive(Debug, Clone)]
pub struct ShapedGlyph {
    pub key: u64,
    pub image: Option<GlyphImage>,
    pub advance: u32,
}

/// A glyph placed on the screen: where its top-left corner is drawn, and
/// where its image lies in the atlas.
#[derive(Debug, Clone, Copy, PartialEq, Eq)]
pub struct PlacedGlyph {
    pub x: u32,
    pub y: u32,
    pub atlas: GlyphPosition,
}

/// The atlas after laying out `glyphs` with the pen at `x` on the line `y`,
/// and the glyphs placed: each glyph with an image is added to the atlas,
/// placed at the pen, and moves the pen by its advance; the others are
/// skipped.
pub open spec fn line_laid_out(v: AtlasView, x: int, y: u32, glyphs: Seq<ShapedGlyph>) -> (
    AtlasView,
    Seq<PlacedGlyph>,
)
    decreases glyphs.len(),
{
    if glyphs.len() == 0 {
        (v, Seq::empty())
    } else {
        let g = glyphs[0];
        match g.image {
            None => line_laid_out(v, x, y, glyphs.drop_first()),
            Some(img) => {
                let (v1, pos) = added(v, g.key, img.width, img.height, img.data@);
                let (v2, rest) = line_laid_out(v1, x + g.advance, y, glyphs.drop_first());
                (v2, seq![PlacedGlyph { x: x as u32, y, atlas: pos }] + rest)
            },
        }
    }
}

/// Every glyph with an image is cached or fits in the atlas when its turn
/// comes, and the pen stays within `u32`.
pub open spec fn line_fits(v: AtlasView, x: int, glyphs: Seq<ShapedGlyph>) -> bool
    decreases glyphs.len(),
{
    if glyphs.len() == 0 {
        true
    } else {
        let g = glyphs[0];
        match g.image {
            None => line_fits(v, x, glyphs.drop_first()),
            Some(img) => {
                &&& v.cache.contains_key(g.key) || fits(v, img.width, img.height, img.data@.len())
                &&& x + g.advance <= u32::MAX
                &&& line_fits(
                    added(v, g.key, img.width, img.height, img.data@).0,
                    x + g.advance,
                    glyphs.drop_first(),
                )
            },
        }
    }
}

/// Packs the images of `glyphs` into `atlas` and places them one after the
/// other on the line `y`, from `x` on. Glyphs without an image are skipped
/// and do not move the pen.
pub fn layout_glyphs(atlas: &mut GlyphAtlas, glyphs: &Vec<ShapedGlyph>, x: u32, y: u32) -> (quads:
    Vec<PlacedGlyph>)
    requires
        line_fits(old(atlas)@, x as int, glyphs@),
    ensures
        (final(atlas)@, quads@) == line_laid_out(old(atlas)@, x as int, y, glyphs@),
{
    let ghost v0 = atlas@;
    let mut quads: Vec<PlacedGlyph> = Vec::new();
    let mut current_x: u32 = x;
    let mut i: usize = 0;
    proof {
        assert(glyphs@.skip(0) =~= glyphs@);
    }
    while i < glyphs.len()
        invariant
            i <= glyphs.len(),
            line_fits(atlas@, current_x as int, glyphs@.skip(i as int)),
            line_laid_out(v0, x as int, y, glyphs@) == ({
                let (v, rest) = line_laid_out(atlas@, current_x as int, y, glyphs@.skip(i as int));
                (v, quads@ + rest)
            }),
        decreases glyphs.len() - i,
    {
        let ghost s = glyphs@.skip(i as int);
        let ghost before = quads@;
        let ghost a0 = atlas@;
        proof {
            assert(s[0] == glyphs@[i as int]);
            assert(s.drop_first() =~= glyphs@.skip(i + 1));
        }
        let glyph = &glyphs[i];
        match &glyph.image {
            Some(image) => {
                let pos = atlas.add(glyph.key, image);
                quads.push(PlacedGlyph { x: current_x, y, atlas: pos });
                proof {
                    let (v2, rest) = line_laid_out(
                        atlas@,
                        current_x + glyph.advance,
                        y,
                        glyphs@.skip(i + 1),
                    );
                    assert(before + (seq![PlacedGlyph { x: current_x, y, atlas: pos }] + rest)
                        =~= quads@ + rest);
                }
                current_x = current_x + glyph.advance;
            },
            None => {},
        }
        i = i + 1;
    }
    proof {
        assert(glyphs@.skip(i as int) =~= Seq::<ShapedGlyph>::empty());
        assert(quads@ + Seq::<PlacedGlyph>::empty() =~= quads@);
    }
    quads
}


/// Whether `key` is among `keys`.
fn has_key(keys: &Vec<u64>, key: u64) -> (b: bool)
    ensures
        b == keys@.contains(key),
{
    let mut i: usize = 0;
    while i < keys.len()
        invariant
            i <= keys.len(),
            forall|j: int| 0 <= j < i ==> keys@[j] != key,
        decreases keys.len() - i,
    {
        if keys[i] == key {
            return true;
        }
        i = i + 1;
    }
    false
}

/// Whether `layout_glyphs` can lay out `glyphs` from `x` on: every glyph
/// image that is not in the atlas yet fits when its turn comes, and the pen
/// stays within `u32`.
pub fn fits_line(atlas: &GlyphAtlas, glyphs: &Vec<ShapedGlyph>, x: u32) -> (b: bool)
    ensures
        b == line_fits(atlas@, x as int, glyphs@),
{
    let (max_x, max_y, len) = atlas.size();
    let (mut nx, mut ny, mut sh) = atlas.pen();
    let ghost v0 = atlas@;
    let ghost mut v = atlas@;
    let mut seen: Vec<u64> = Vec::new();
    let mut cx: u32 = x;
    let mut i: usize = 0;
    proof {
        assert(glyphs@.skip(0) =~= glyphs@);
    }
    while i < glyphs.len()
        invariant
            i <= glyphs.len(),
            v0 == atlas@,
            v.max_x == max_x,
            v.max_y == max_y,
            v.contents.len() == len,
            v.next_x == nx,
            v.next_y == ny,
            v.shelf == sh,
            forall|k: u64| #[trigger]
                v.cache.contains_key(k) <==> (v0.cache.contains_key(k) || seen@.contains(k)),
            line_fits(v0, x as int, glyphs@) == line_fits(v, cx as int, glyphs@.skip(i as int)),
        decreases glyphs.len() - i,
    {
        let ghost s = glyphs@.skip(i as int);
        proof {
            assert(s[0] == glyphs@[i as int]);
            assert(s.drop_first() =~= glyphs@.skip(i + 1));
        }
        let g = &glyphs[i];
        match &g.image {
            None => {},
            Some(img) => {
                let w = img.width;
                let h = img.height;
                let cached = atlas.is_cached(g.key) || has_key(&seen, g.key);
                if !cached {
                    let end_x: u64 = nx as u64 + w as u64;
                    if end_x > 0xffff_ffffu64 {
                        return false;
                    }
                    let (sx, sy, ssh): (u64, u64, u64) = if end_x > max_x as u64 {
                        (0, ny as u64 + sh as u64, 0)
                    } else {
                        (nx as u64, ny as u64, sh as u64)
                    };
                    proof {
                        let (a, b, c) = shelf_start(v, w);
                        assert(a == sx && b == sy && c == ssh);
                    }
                    if sy > 0xffff_ffffu64 || sy + h as u64 > max_y as u64 {
                        return false;
                    }
                    assert(w as u64 * h as u64 <= 0xffff_ffff_ffff_ffffu64) by (nonlinear_arith)
                        requires
                            w <= 0xffff_ffffu32,
                            h <= 0xffff_ffffu32,
                    ;
                    let pixels: u64 = w as u64 * h as u64;
                    if pixels > img.data.len() as u64 || pixels > 0xffff_ffffu64 || sx + w as u64
                        > 0xffff_ffffu64 {
                        return false;
                    }
                    if h != 0 && w != 0 {
                        assert((sy + h as u64 - 1) * (max_x as u64) <= 0xffff_fffe_0000_0001u64)
                            by (nonlinear_arith)
                            requires
                                sy + h <= 0xffff_ffffu64,
                                h >= 1,
                                max_x <= 0xffff_ffffu32,
                        ;
                        let last: u64 = (sy + h as u64 - 1) * (max_x as u64) + sx + w as u64;
                        if last > len as u64 {
                            return false;
                        }
                    }
                    if len as u64 > 0xffff_ffffu64 {
                        return false;
                    }
                    // the glyph fits: move the pen as adding it would
                    proof {
                        lemma_put_rows_len(
                            v.contents,
                            img.data@,
                            max_x as int,
                            sx as int,
                            sy as int,
                            w as int,
                            h as int,
                        );
                        v = added(v, g.key, w, h, img.data@).0;
                    }
                    nx = (sx + w as u64) as u32;
                    ny = sy as u32;
                    sh = if h as u64 > ssh {
                        h
                    } else {
                        ssh as u32
                    };
                    let ghost before = seen@;
                    seen.push(g.key);
                    proof {
                        assert forall|k: u64| #[trigger] v.cache.contains_key(k) <==> (
                        v0.cache.contains_key(k) || seen@.contains(k)) by {
                            if before.contains(k) {
                                let j = choose|j: int| 0 <= j < before.len() && before[j] == k;
                                assert(seen@[j] == k);
                            }
                            if seen@.contains(k) && k != g.key {
                                let j = choose|j: int| 0 <= j < seen@.len() && seen@[j] == k;
                                assert(j < before.len() && before[j] == k);
                            }
                            if k == g.key {
                                assert(seen@[before.len() as int] == k);
                            }
                        }
                    }
                }
                if cx as u64 + g.advance as u64 > 0xffff_ffffu64 {
                    return false;
                }
                cx = cx + g.advance;
            },
        }
        i = i + 1;
    }
    proof {
        assert(glyphs@.skip(i as int) =~= Seq::<ShapedGlyph>::empty());
    }
    true
}


/// Some glyph is cached at `pos`.
pub open spec fn cached_at(cache: Map<u64, GlyphPosition>, pos: GlyphPosition) -> bool {
    exists|k: u64| #[trigger] cache.contains_key(k) && cache[k] == pos
}

/// Laying out a line never moves a glyph already in the atlas, and every
/// glyph it places is drawn from the atlas place cached for its image.
pub proof fn lemma_layout_uses_cache(v: AtlasView, x: int, y: u32, glyphs: Seq<ShapedGlyph>)
    ensures
        forall|k: u64| #[trigger]
            v.cache.contains_key(k) ==> line_laid_out(v, x, y, glyphs).0.cache.contains_key(k)
                && line_laid_out(v, x, y, glyphs).0.cache[k] == v.cache[k],
        forall|i: int|
            0 <= i < line_laid_out(v, x, y, glyphs).1.len() ==> cached_at(
                line_laid_out(v, x, y, glyphs).0.cache,
                (#[trigger] line_laid_out(v, x, y, glyphs).1[i]).atlas,
            ),
    decreases glyphs.len(),
{
    if glyphs.len() > 0 {
        let g = glyphs[0];
        let rest_glyphs = glyphs.drop_first();
        match g.image {
            None => {
                lemma_layout_uses_cache(v, x, y, rest_glyphs);
                assert(line_laid_out(v, x, y, glyphs) == line_laid_out(v, x, y, rest_glyphs));
            },
            Some(img) => {
                let (v1, pos) = added(v, g.key, img.width, img.height, img.data@);
                let x1 = x + g.advance;
                lemma_layout_uses_cache(v1, x1, y, rest_glyphs);
                let after = line_laid_out(v1, x1, y, rest_glyphs).0;
                let rest = line_laid_out(v1, x1, y, rest_glyphs).1;
                let placed = seq![PlacedGlyph { x: x as u32, y, atlas: pos }] + rest;
                assert(line_laid_out(v, x, y, glyphs).0 == after);
                assert(line_laid_out(v, x, y, glyphs).1 == placed);
                assert(v1.cache.contains_key(g.key) && v1.cache[g.key] == pos);
                assert forall|k: u64| #[trigger] v.cache.contains_key(k) implies after.cache.contains_key(
                    k,
                ) && after.cache[k] == v.cache[k] by {
                    assert(v1.cache.contains_key(k) && v1.cache[k] == v.cache[k]);
                }
                assert forall|i: int| 0 <= i < placed.len() implies cached_at(
                    after.cache,
                    (#[trigger] placed[i]).atlas,
                ) by {
                    if i == 0 {
                        assert(after.cache.contains_key(g.key) && after.cache[g.key] == pos);
                    } else {
                        assert(placed[i] == rest[i - 1]);
                    }
                }
            },
        }
    }
}


/// A line fits when its first glyph has no image and the rest fits.
pub proof fn lemma_line_fits_skip(v: AtlasView, x: int, g: ShapedGlyph, rest: Seq<ShapedGlyph>)
    requires
        g.image is None,
        line_fits(v, x, rest),
    ensures
        line_fits(v, x, seq![g] + rest),
{
    assert((seq![g] + rest).drop_first() =~= rest);
}

/// A line fits when its first glyph is cached or fits in the atlas as it
/// is, the pen stays within `u32` after it, and the rest fits in the atlas
/// that adding the glyph leaves, from the pen after it. Nothing is asked of
/// the room left on the current shelf.
pub proof fn lemma_line_fits_add(v: AtlasView, x: int, g: ShapedGlyph, rest: Seq<ShapedGlyph>)
    requires
        g.image is Some,
        v.cache.contains_key(g.key) || fits(
            v,
            g.image->0.width,
            g.image->0.height,
            g.image->0.data@.len(),
        ),
        x + g.advance <= u32::MAX,
        line_fits(
            added(v, g.key, g.image->0.width, g.image->0.height, g.image->0.data@).0,
            x + g.advance,
            rest,
        ),
    ensures
        line_fits(v, x, seq![g] + rest),
{
    assert((seq![g] + rest).drop_first() =~= rest);
    assert((seq![g] + rest)[0] == g);
}

/// A single glyph that is cached or fits, with the pen staying within
/// `u32`, makes a line that fits.
pub proof fn lemma_line_fits_one(v: AtlasView, x: int, g: ShapedGlyph)
    requires
        g.image matches Some(img) ==> (v.cache.contains_key(g.key) || fits(
            v,
            img.width,
            img.height,
            img.data@.len(),
        )) && x + g.advance <= u32::MAX,
    ensures
        line_fits(v, x, seq![g]),
{
    let empty = Seq::<ShapedGlyph>::empty();
    assert(seq![g] + empty =~= seq![g]);
    if g.image is Some {
        lemma_line_fits_add(v, x, g, empty);
    } else {
        lemma_line_fits_skip(v, x, g, empty);
    }
}

} // verus!
