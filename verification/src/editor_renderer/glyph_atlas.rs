//! The glyph atlas of the text renderer: glyphs packed on shelves as in
//! `atlas`, but a glyph that no longer fits is refused with an error.
use crate::editor_renderer::atlas::{
    added, disjoint, fits, lemma_add_stocks, lemma_placed_packed, packed, pixel, placed, shelf_start, slot_holds,
    stocked, AtlasView, GlyphImage, GlyphPosition,
};
use crate::editor_renderer::pixels::{lemma_put_rows_len, put_pixels};
use std::collections::HashMap;
use vstd::prelude::*;

verus! {

broadcast use vstd::std_specs::hash::group_hash_axioms;

/// Why a glyph could not be added to the atlas.
#[non_exhaustive]
#[derive(Debug, Clone, Copy, PartialEq, Eq)]
pub enum GlyphAtlasError {
    /// The atlas is already packed, or the glyph is too large to fit.
    Overflow,
}

impl GlyphAtlasError {
    /// The message shown for this error.
    pub fn message(&self) -> (s: &'static str)
        ensures
            s@ == "Failed to load new glyph because of a lack of space: atlas is already packed or glyph is too large to fit"@,
    {
        "Failed to load new glyph because of a lack of space: atlas is already packed or glyph is too large to fit"
    }
}

/// The shelf that a `w`-wide glyph would start on, with the pen moved there:
/// `v` itself when the glyph fits on the current shelf in width.
pub open spec fn on_shelf(v: AtlasView, w: u32) -> AtlasView {
    let (nx, ny, sh) = shelf_start(v, w);
    AtlasView { next_x: nx as u32, next_y: ny as u32, shelf: sh as u32, ..v }
}

/// The arithmetic of `add` stays within `u32`, and a glyph that fits can
/// be copied into the texture.
pub open spec fn addable(v: AtlasView, w: u32, h: u32, data_len: nat) -> bool {
    let (nx, ny, sh) = shelf_start(v, w);
    w <= v.max_x ==> addable_in_width(v, w, h, data_len)
}

/// `addable` for a glyph no wider than the atlas.
pub open spec fn addable_in_width(v: AtlasView, w: u32, h: u32, data_len: nat) -> bool {
    let (nx, ny, sh) = shelf_start(v, w);
    &&& v.next_x + w <= u32::MAX
    &&& ny <= u32::MAX
    &&& ny + h <= u32::MAX
    &&& ny + h <= v.max_y ==> {
        &&& w * h <= data_len
        &&& w * h <= u32::MAX
        &&& nx + w <= u32::MAX
        &&& (h == 0 || w == 0 || (ny + h - 1) * v.max_x + nx + w <= v.contents.len())
        &&& v.contents.len() <= u32::MAX
    }
}

pub struct GlyphAtlas {
    pub width: u32,
    pub height: u32,
    next_x: u32,
    next_y: u32,
    current_shelf_height: u32,
    pub contents: Vec<u8>,
    cache: HashMap<u64, GlyphPosition>,
    images: Ghost<Map<u64, Seq<u8>>>,
}

impl View for GlyphAtlas {
    type V = AtlasView;

    closed spec fn view(&self) -> AtlasView {
        AtlasView {
            max_x: self.width,
            max_y: self.height,
            next_x: self.next_x,
            next_y: self.next_y,
            shelf: self.current_shelf_height,
            cache: self.cache@,
            contents: self.contents@,
        }
    }
}

impl GlyphAtlas {
    /// The images of the cached glyphs, by key.
    pub closed spec fn images(&self) -> Map<u64, Seq<u8>> {
        self.images@
    }

    /// An empty `width` by `height` atlas, all pixels zero.
    pub fn new(width: u32, height: u32) -> (a: Self)
        requires
            width * height <= u32::MAX,
        ensures
            a@.max_x == width,
            a@.max_y == height,
            a@.next_x == 0,
            a@.next_y == 0,
            a@.shelf == 0,
            a@.cache == Map::<u64, GlyphPosition>::empty(),
            a@.contents == Seq::new((width * height) as nat, |i: int| 0u8),
            packed(a@),
            stocked(a@, a.images()),
    {
        let contents = vec![0u8; (width * height) as usize];
        let a = Self {
            width,
            height,
            next_x: 0,
            next_y: 0,
            current_shelf_height: 0,
            contents,
            cache: HashMap::new(),
            images: Ghost(Map::empty()),
        };
        assert(a@.contents =~= Seq::new((width * height) as nat, |i: int| 0u8));
        a
    }

    /// Places the glyph `key` in the atlas, copying its pixels, unless it is
    /// there already; either way, returns where it lies. A glyph too large to
    /// fit is refused: one wider than the atlas, leaving it as it was, or one
    /// that does not fit below the last shelf, the pen having moved to a new
    /// shelf if the glyph did not fit on the current one in width.
    pub fn add(&mut self, image: &GlyphImage, key: u64) -> (r: Result<GlyphPosition, GlyphAtlasError>)
        requires
            old(self)@.cache.contains_key(key) || addable(
                old(self)@,
                image.width,
                image.height,
                image.data@.len(),
            ),
        ensures
            old(self)@.cache.contains_key(key) ==> r == Ok::<GlyphPosition, GlyphAtlasError>(
                old(self)@.cache[key],
            ) && final(self)@ == old(self)@,
            !old(self)@.cache.contains_key(key) && image.width > old(self)@.max_x ==> r
                == Err::<GlyphPosition, GlyphAtlasError>(GlyphAtlasError::Overflow) && final(self)@ == old(self)@,
            !old(self)@.cache.contains_key(key) && image.width <= old(self)@.max_x && shelf_start(
                old(self)@,
                image.width,
            ).1 + image.height > old(self)@.max_y ==> r == Err::<GlyphPosition, GlyphAtlasError>(
                GlyphAtlasError::Overflow,
            ) && final(self)@ == on_shelf(old(self)@, image.width),
            !old(self)@.cache.contains_key(key) && image.width <= old(self)@.max_x && shelf_start(
                old(self)@,
                image.width,
            ).1 + image.height <= old(self)@.max_y ==> r is Ok && placed(
                old(self)@,
                final(self)@,
                key,
                image.width,
                image.height,
                image.data@,
                r->Ok_0,
            ),
            final(self).images() == (if !old(self)@.cache.contains_key(key) && r is Ok {
                old(self).images().insert(key, image.data@)
            } else {
                old(self).images()
            }),
            packed(old(self)@) && stocked(old(self)@, old(self).images()) ==> stocked(
                final(self)@,
                final(self).images(),
            ),
            final(self)@.contents.len() == old(self)@.contents.len(),
            final(self)@.max_x == old(self)@.max_x,
            final(self)@.max_y == old(self)@.max_y,
            packed(old(self)@) ==> packed(final(self)@),
            packed(old(self)@) && !old(self)@.cache.contains_key(key) && r is Ok ==> forall|k: u64|
                #[trigger] old(self)@.cache.contains_key(k) ==> disjoint(
                    old(self)@.cache[k],
                    r->Ok_0,
                ),
    {
        // early return if already mapped
        if self.cache.contains_key(&key) {
            return Ok(*self.cache.get(&key).unwrap());
        }
        let w = image.width;
        let h = image.height;
        // check for space: a glyph wider than the atlas never fits
        if w > self.width {
            return Err(GlyphAtlasError::Overflow);
        }
        let ghost v0 = self@;
        if self.next_x + w > self.width {
            self.next_y += self.current_shelf_height;
            self.next_x = 0;
            self.current_shelf_height = 0;
        }
        if self.next_y + h > self.height {
            proof {
                lemma_on_shelf_keeps(v0, w, self.images@);
            }
            return Err(GlyphAtlasError::Overflow);
        }
        if h > self.current_shelf_height {
            self.current_shelf_height = h;
        }
        // copy data to the atlas contents row by row
        proof {
            lemma_put_rows_len(
                self.contents@,
                image.data@,
                self.width as int,
                self.next_x as int,
                self.next_y as int,
                w as int,
                h as int,
            );
        }
        put_pixels(&mut self.contents, self.width, self.next_x, self.next_y, &image.data, w, h);
        // map new entry and move pointer for the next write
        let position = GlyphPosition { x: self.next_x, y: self.next_y, width: w, height: h };
        self.cache.insert(key, position);
        self.next_x += w;
        proof {
            let images = self.images@;
            self.images@ = images.insert(key, image.data@);
            if packed(v0) {
                lemma_placed_packed(v0, self@, key, w, h, image.data@, position);
            }
            if packed(v0) && stocked(v0, images) {
                lemma_add_stocks(v0, self@, key, w, h, image.data@, position, images);
            }
        }
        Ok(position)
    }
}


/// Adding a glyph that fits never moves a glyph already in the atlas nor
/// changes any of its pixels, when the new glyph lies within the atlas's
/// width.
pub proof fn lemma_add_keeps_placed_glyphs(
    v: AtlasView,
    new: AtlasView,
    key: u64,
    w: u32,
    h: u32,
    data: Seq<u8>,
    pos: GlyphPosition,
    k: u64,
    px: int,
    py: int,
)
    requires
        packed(v),
        !v.cache.contains_key(key),
        addable(v, w, h, data.len()),
        shelf_start(v, w).1 + h <= v.max_y,
        placed(v, new, key, w, h, data, pos),
        shelf_start(v, w).0 + w <= v.max_x,
        v.cache.contains_key(k),
        v.cache[k].x <= px < v.cache[k].x + v.cache[k].width,
        v.cache[k].y <= py < v.cache[k].y + v.cache[k].height,
        px < v.max_x,
        py * v.max_x + px < v.contents.len(),
    ensures
        new.cache.contains_key(k),
        new.cache[k] == v.cache[k],
        new.contents[py * v.max_x + px] == v.contents[py * v.max_x + px],
{
    assert(fits(v, w, h, data.len()));
    assert(new.contents == added(v, key, w, h, data).0.contents);
    crate::editor_renderer::atlas::lemma_add_keeps_placed_pixels(v, key, w, h, data, k, px, py);
}


/// Moving the pen to a new shelf keeps the atlas packed and stocked.
pub proof fn lemma_on_shelf_keeps(v: AtlasView, w: u32, images: Map<u64, Seq<u8>>)
    requires
        shelf_start(v, w).1 <= u32::MAX,
    ensures
        packed(v) ==> packed(on_shelf(v, w)),
        stocked(v, images) ==> stocked(on_shelf(v, w), images),
{
    let s = on_shelf(v, w);
    if stocked(v, images) {
        assert forall|k: u64| #[trigger] s.cache.contains_key(k) implies images.contains_key(k)
            && slot_holds(s, images[k], s.cache[k]) by {
            let p = v.cache[k];
            assert(slot_holds(v, images[k], p));
            assert forall|x: int, y: int|
                p.x <= x < p.x + p.width && p.y <= y < p.y + p.height implies #[trigger] pixel(
                s,
                x,
                y,
            ) == images[k][(y - p.y) * p.width + (x - p.x)] by {
                assert(pixel(s, x, y) == pixel(v, x, y));
            }
        }
    }
}

} // verus!
