//! A glyph atlas: one texture into which glyph images are packed on shelves,
//! left to right, a new shelf starting below the tallest glyph of the last.
use crate::editor_renderer::pixels::{
    in_rect, lemma_put_rows_inside, lemma_put_rows_len, lemma_put_rows_outside, put_pixels,
    put_rows,
};
use std::collections::HashMap;
use vstd::prelude::*;

verus! {

broadcast use vstd::std_specs::hash::group_hash_axioms;

/// Where a glyph lies in the atlas, in pixels.
#[derive(Debug, Clone, Copy, PartialEq, Eq)]
pub struct GlyphPosition {
    pub x: u32,
    pub y: u32,
    pub width: u32,
    pub height: u32,
}

/// A rasterized glyph: its size in pixels and its coverage bytes, row after row.
#[derive(Debug, Clone)]
pub struct GlyphImage {
    pub width: u32,
    pub height: u32,
    pub data: Vec<u8>,
}

/// The atlas as mathematical values. `cache` maps glyph keys to the places
/// their images were put.
pub struct AtlasView {
    pub max_x: u32,
    pub max_y: u32,
    pub next_x: u32,
    pub next_y: u32,
    pub shelf: u32,
    pub cache: Map<u64, GlyphPosition>,
    pub contents: Seq<u8>,
}

/// Where a `w`-wide glyph goes, and the shelf height then: on the current
/// shelf if it fits in width, else at the start of a new shelf below.
pub open spec fn shelf_start(v: AtlasView, w: u32) -> (int, int, int) {
    if v.next_x + w > v.max_x {
        (0, v.next_y + v.shelf, 0)
    } else {
        (v.next_x as int, v.next_y as int, v.shelf as int)
    }
}

/// A new `w` by `h` glyph can be placed without overflow: its shelf fits
/// in the atlas height, and its rows fit in the texture.
pub open spec fn fits(v: AtlasView, w: u32, h: u32, data_len: nat) -> bool {
    let (nx, ny, sh) = shelf_start(v, w);
    &&& v.next_x + w <= u32::MAX
    &&& ny <= u32::MAX
    &&& ny + h <= v.max_y
    &&& w * h <= data_len
    &&& w * h <= u32::MAX
    &&& nx + w <= u32::MAX
    &&& (h == 0 || w == 0 || (ny + h - 1) * v.max_x + nx + w <= v.contents.len())
    &&& v.contents.len() <= u32::MAX
}

/// The atlas after `add` of the `w` by `h` glyph `key` with pixels `data`,
/// and where the glyph lies: unchanged if the glyph is cached, else `placed`.
pub open spec fn added(v: AtlasView, key: u64, w: u32, h: u32, data: Seq<u8>) -> (
    AtlasView,
    GlyphPosition,
) {
    if v.cache.contains_key(key) {
        (v, v.cache[key])
    } else {
        let (nx, ny, sh) = shelf_start(v, w);
        let pos = GlyphPosition { x: nx as u32, y: ny as u32, width: w, height: h };
        (
            AtlasView {
                max_x: v.max_x,
                max_y: v.max_y,
                next_x: (nx + w) as u32,
                next_y: ny as u32,
                shelf: (if h > sh {
                    h as int
                } else {
                    sh
                }) as u32,
                cache: v.cache.insert(key, pos),
                contents: put_rows(v.contents, data, v.max_x as int, nx, ny, w as int, h as int),
            },
            pos,
        )
    }
}

/// The two glyph rectangles share no pixel.
pub open spec fn disjoint(a: GlyphPosition, b: GlyphPosition) -> bool {
    ||| a.x + a.width <= b.x
    ||| b.x + b.width <= a.x
    ||| a.y + a.height <= b.y
    ||| b.y + b.height <= a.y
}

/// Every glyph placed so far lies on a finished shelf, above `next_y`, or on
/// the current shelf, left of `next_x` and no taller than the shelf.
pub open spec fn packed(v: AtlasView) -> bool {
    forall|k: u64| #[trigger]
        v.cache.contains_key(k) ==> {
            let p = v.cache[k];
            ||| p.y + p.height <= v.next_y
            ||| (p.y == v.next_y && p.x + p.width <= v.next_x && p.height <= v.shelf)
        }
}

/// `new` is `v` after the `w` by `h` glyph `key` with pixels `data` was placed.
pub open spec fn placed(
    v: AtlasView,
    new: AtlasView,
    key: u64,
    w: u32,
    h: u32,
    data: Seq<u8>,
    pos: GlyphPosition,
) -> bool {
    let (nx, ny, sh) = shelf_start(v, w);
    &&& pos == GlyphPosition { x: nx as u32, y: ny as u32, width: w, height: h }
    &&& new.cache == v.cache.insert(key, pos)
    &&& new.next_x == nx + w
    &&& new.next_y == ny
    &&& new.shelf == (if h > sh {
        h as int
    } else {
        sh
    })
    &&& new.contents == put_rows(v.contents, data, v.max_x as int, nx, ny, w as int, h as int)
    &&& new.max_x == v.max_x
    &&& new.max_y == v.max_y
}

/// The pixel at column `x` of row `y`.
pub open spec fn pixel(v: AtlasView, x: int, y: int) -> u8 {
    v.contents[y * v.max_x + x]
}

/// The slot `p` lies inside the atlas, and its pixels are those of the
/// image `data`, row after row.
pub open spec fn slot_holds(v: AtlasView, data: Seq<u8>, p: GlyphPosition) -> bool {
    &&& p.x + p.width <= v.max_x
    &&& p.y + p.height <= v.max_y
    &&& forall|x: int, y: int|
        p.x <= x < p.x + p.width && p.y <= y < p.y + p.height ==> #[trigger] pixel(v, x, y)
            == data[(y - p.y) * p.width + (x - p.x)]
}

/// The texture has a pixel for every place of the atlas, and every cached
/// glyph's slot lies inside the atlas and holds the glyph's image (its
/// pixels as recorded in `images`).
pub open spec fn stocked(v: AtlasView, images: Map<u64, Seq<u8>>) -> bool {
    &&& v.contents.len() == v.max_x * v.max_y
    &&& forall|k: u64| #[trigger]
        v.cache.contains_key(k) ==> images.contains_key(k) && slot_holds(
            v,
            images[k],
            v.cache[k],
        )
}

pub struct GlyphAtlas {
    pub max_x: u32,
    pub max_y: u32,
    next_x: u32,
    next_y: u32,
    current_shelf_height: u32,
    cache: HashMap<u64, GlyphPosition>,
    pub contents: Vec<u8>,
    images: Ghost<Map<u64, Seq<u8>>>,
}

impl View for GlyphAtlas {
    type V = AtlasView;

    closed spec fn view(&self) -> AtlasView {
        AtlasView {
            max_x: self.max_x,
            max_y: self.max_y,
            next_x: self.next_x,
            next_y: self.next_y,
            shelf: self.current_shelf_height,
            cache: self.cache@,
            contents: self.contents@,
        }
    }
}

impl GlyphAtlas {
    /// The images of the cached glyphs, by key.
    pub closed spec fn images(&self) -> Map<u64, Seq<u8>> {
        self.images@
    }

    /// An empty `width` by `height` atlas, all pixels zero.
    pub fn new(width: u32, height: u32) -> (a: Self)
        requires
            width * height <= u32::MAX,
        ensures
            a@.max_x == width,
            a@.max_y == height,
            a@.next_x == 0,
            a@.next_y == 0,
            a@.shelf == 0,
            a@.cache == Map::<u64, GlyphPosition>::empty(),
            a@.contents == Seq::new((width * height) as nat, |i: int| 0u8),
            packed(a@),
            stocked(a@, a.images()),
    {
        let contents = vec![0u8; (width * height) as usize];
        let a = Self {
            max_x: width,
            max_y: height,
            next_x: 0,
            next_y: 0,
            current_shelf_height: 0,
            cache: HashMap::new(),
            contents,
            images: Ghost(Map::empty()),
        };
        assert(a@.contents =~= Seq::new((width * height) as nat, |i: int| 0u8));
        a
    }

    /// Where the next glyph would go on the current shelf, and the shelf's
    /// height: `(next_x, next_y, shelf)`.
    pub fn pen(&self) -> (p: (u32, u32, u32))
        ensures
            p == (self@.next_x, self@.next_y, self@.shelf),
    {
        (self.next_x, self.next_y, self.current_shelf_height)
    }

    /// The atlas's width and height, and the number of pixels of its texture.
    pub fn size(&self) -> (r: (u32, u32, usize))
        ensures
            r.0 == self@.max_x && r.1 == self@.max_y && r.2 == self@.contents.len(),
    {
        (self.max_x, self.max_y, self.contents.len())
    }

    /// Whether the glyph `key` is in the atlas.
    pub fn is_cached(&self, key: u64) -> (b: bool)
        ensures
            b == self@.cache.contains_key(key),
    {
        self.cache.contains_key(&key)
    }

    /// Places the glyph `key` in the atlas, copying its pixels, unless it is
    /// there already; either way, returns where it lies.
    pub fn add(&mut self, key: u64, image: &GlyphImage) -> (pos: GlyphPosition)
        requires
            old(self)@.cache.contains_key(key) || fits(
                old(self)@,
                image.width,
                image.height,
                image.data@.len(),
            ),
        ensures
            old(self)@.cache.contains_key(key) ==> pos == old(self)@.cache[key] && final(self)@
                == old(self)@,
            !old(self)@.cache.contains_key(key) ==> placed(
                old(self)@,
                final(self)@,
                key,
                image.width,
                image.height,
                image.data@,
                pos,
            ),
            (final(self)@, pos) == added(old(self)@, key, image.width, image.height, image.data@),
            final(self)@.contents.len() == old(self)@.contents.len(),
            final(self)@.max_x == old(self)@.max_x,
            final(self)@.max_y == old(self)@.max_y,
            final(self).images() == (if old(self)@.cache.contains_key(key) {
                old(self).images()
            } else {
                old(self).images().insert(key, image.data@)
            }),
            packed(old(self)@) && stocked(old(self)@, old(self).images()) && (old(self)@.cache.contains_key(key) || image.width <= old(self)@.max_x) ==> stocked(
                final(self)@,
                final(self).images(),
            ),
            packed(old(self)@) ==> packed(final(self)@),
            packed(old(self)@) && !old(self)@.cache.contains_key(key) ==> forall|k: u64| #[trigger]
                old(self)@.cache.contains_key(k) ==> disjoint(old(self)@.cache[k], pos),
    {
        // early return if already mapped
        if self.cache.contains_key(&key) {
            return *self.cache.get(&key).unwrap();
        }
        let w = image.width;
        let h = image.height;
        // check for horizontal space
        if self.next_x + w > self.max_x {
            self.next_y += self.current_shelf_height;
            self.next_x = 0;
            self.current_shelf_height = 0;
        }
        // vertical overflow is ruled out by the precondition
        // overwrite current_shelf_height if necessary
        if h > self.current_shelf_height {
            self.current_shelf_height = h;
        }
        // insert to the cache
        let position = GlyphPosition { x: self.next_x, y: self.next_y, width: w, height: h };
        self.cache.insert(key, position);
        // copy contents pixel by pixel
        proof {
            lemma_put_rows_len(
                self.contents@,
                image.data@,
                self.max_x as int,
                self.next_x as int,
                self.next_y as int,
                w as int,
                h as int,
            );
        }
        put_pixels(&mut self.contents, self.max_x, self.next_x, self.next_y, &image.data, w, h);
        // move pointer
        self.next_x += w;
        proof {
            let v0 = old(self)@;
            let (v1, p1) = added(v0, key, w, h, image.data@);
            assert(p1 == position);
            assert(self@.cache == v1.cache);
            assert(self@.contents == v1.contents);
            assert(self@ == v1);
            let images = self.images@;
            self.images@ = images.insert(key, image.data@);
            if packed(v0) && stocked(v0, images) && w <= v0.max_x {
                lemma_add_stocks(v0, self@, key, w, h, image.data@, position, images);
            }
        }
        position
    }
}


/// Adding a glyph never changes a pixel of a glyph already in the atlas,
/// when the new glyph lies within the atlas's width.
pub proof fn lemma_add_keeps_placed_pixels(
    v: AtlasView,
    key: u64,
    w: u32,
    h: u32,
    data: Seq<u8>,
    k: u64,
    px: int,
    py: int,
)
    requires
        packed(v),
        !v.cache.contains_key(key),
        fits(v, w, h, data.len()),
        shelf_start(v, w).0 + w <= v.max_x,
        v.cache.contains_key(k),
        v.cache[k].x <= px < v.cache[k].x + v.cache[k].width,
        v.cache[k].y <= py < v.cache[k].y + v.cache[k].height,
        px < v.max_x,
        py * v.max_x + px < v.contents.len(),
    ensures
        added(v, key, w, h, data).0.contents[py * v.max_x + px] == v.contents[py * v.max_x + px],
{
    let (nx, ny, sh) = shelf_start(v, w);
    let i = py * v.max_x + px;
    vstd::arithmetic::div_mod::lemma_fundamental_div_mod_converse(i, v.max_x as int, py, px);
    assert(!in_rect(i, v.max_x as int, nx, ny, w as int, h as int));
    lemma_put_rows_outside(v.contents, data, v.max_x as int, nx, ny, w as int, h as int, i);
}


/// Adding a glyph no wider than the atlas keeps every cached slot inside
/// the atlas and holding its glyph's image, the new one included. With
/// `new`, which is stocked, this holds of every atlas reached by `add`.
pub proof fn lemma_add_stocks(
    v: AtlasView,
    new: AtlasView,
    key: u64,
    w: u32,
    h: u32,
    data: Seq<u8>,
    pos: GlyphPosition,
    images: Map<u64, Seq<u8>>,
)
    requires
        packed(v),
        stocked(v, images),
        !v.cache.contains_key(key),
        w <= v.max_x,
        fits(v, w, h, data.len()),
        placed(v, new, key, w, h, data, pos),
    ensures
        stocked(new, images.insert(key, data)),
{
    let (nx, ny, sh) = shelf_start(v, w);
    let stride = v.max_x as int;
    assert(nx + w <= v.max_x);
    lemma_put_rows_len(v.contents, data, stride, nx, ny, w as int, h as int);
    assert(new.contents == added(v, key, w, h, data).0.contents);
    let imgs = images.insert(key, data);
    assert forall|k: u64| #[trigger] new.cache.contains_key(k) implies imgs.contains_key(k)
        && slot_holds(new, imgs[k], new.cache[k]) by {
        if k == key {
            assert forall|x: int, y: int|
                pos.x <= x < pos.x + pos.width && pos.y <= y < pos.y + pos.height implies #[trigger] pixel(
                new,
                x,
                y,
            ) == data[(y - pos.y) * pos.width + (x - pos.x)] by {
                lemma_put_rows_inside(
                    v.contents,
                    data,
                    stride,
                    nx,
                    ny,
                    w as int,
                    h as int,
                    y - ny,
                    x - nx,
                );
            }
        } else {
            let p = v.cache[k];
            assert(slot_holds(v, images[k], p));
            assert forall|x: int, y: int|
                p.x <= x < p.x + p.width && p.y <= y < p.y + p.height implies #[trigger] pixel(
                new,
                x,
                y,
            ) == images[k][(y - p.y) * p.width + (x - p.x)] by {
                assert(y * stride + x < v.contents.len()) by (nonlinear_arith)
                    requires
                        0 <= x < stride,
                        0 <= y < v.max_y,
                        v.contents.len() == stride * v.max_y,
                ;
                lemma_add_keeps_placed_pixels(
                    v,
                    key,
                    w,
                    h,
                    data,
                    k,
                    x,
                    y,
                );
                assert(pixel(v, x, y) == images[k][(y - p.y) * p.width + (x - p.x)]);
            }
        }
    }
}



/// Placing a new glyph keeps the atlas packed.
pub proof fn lemma_placed_packed(
    v: AtlasView,
    new: AtlasView,
    key: u64,
    w: u32,
    h: u32,
    data: Seq<u8>,
    pos: GlyphPosition,
)
    requires
        packed(v),
        !v.cache.contains_key(key),
        placed(v, new, key, w, h, data, pos),
        shelf_start(v, w).0 + w <= u32::MAX,
        shelf_start(v, w).1 <= u32::MAX,
    ensures
        packed(new),
{
    assert forall|k: u64| #[trigger] new.cache.contains_key(k) implies ({
        let p = new.cache[k];
        ||| p.y + p.height <= new.next_y
        ||| (p.y == new.next_y && p.x + p.width <= new.next_x && p.height <= new.shelf)
    }) by {
        if k != key {
            assert(v.cache.contains_key(k));
        }
    }
}


/// A glyph no wider than the atlas, in a texture with a pixel for every
/// place of the atlas, fits when its shelf (the current one if there is room
/// left on it in width, else a new one below) reaches no lower than the
/// atlas's bottom, its pixels are given, and the arithmetic stays in `u32`.
pub proof fn lemma_fits_on_shelf(v: AtlasView, w: u32, h: u32, data_len: nat)
    requires
        w <= v.max_x,
        v.contents.len() == v.max_x * v.max_y,
        v.contents.len() <= u32::MAX,
        v.next_x + w <= u32::MAX,
        w * h <= data_len,
        w * h <= u32::MAX,
        v.next_x + w <= v.max_x ==> v.next_y + h <= v.max_y,
        v.next_x + w > v.max_x ==> v.next_y + v.shelf + h <= v.max_y,
    ensures
        fits(v, w, h, data_len),
{
    let (nx, ny, sh) = shelf_start(v, w);
    assert(nx + w <= v.max_x);
    assert(ny + h <= v.max_y);
    if h > 0 && w > 0 {
        assert((ny + h - 1) * v.max_x + v.max_x <= v.max_x * v.max_y) by (nonlinear_arith)
            requires
                ny + h <= v.max_y,
                h >= 1,
                0 <= ny,
        ;
    }
}

} // verus!
