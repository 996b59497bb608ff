use notetaker::editor_renderer::atlas::{GlyphAtlas, GlyphImage, GlyphPosition};
use notetaker::editor_renderer::text_layout::{fits_line, layout_glyphs, PlacedGlyph, ShapedGlyph};

fn glyph(key: u64, w: u32, h: u32, advance: u32) -> ShapedGlyph {
    ShapedGlyph {
        key,
        image: Some(GlyphImage { width: w, height: h, data: vec![key as u8; (w * h) as usize] }),
        advance,
    }
}

#[test]
fn glyphs_are_placed_after_each_other() {
    let mut atlas = GlyphAtlas::new(8, 8);
    let glyphs = vec![glyph(1, 2, 3, 5), glyph(2, 1, 2, 4)];
    let placed = layout_glyphs(&mut atlas, &glyphs, 10, 20);
    assert_eq!(
        placed,
        vec![
            PlacedGlyph { x: 10, y: 20, atlas: GlyphPosition { x: 0, y: 0, width: 2, height: 3 } },
            PlacedGlyph { x: 15, y: 20, atlas: GlyphPosition { x: 2, y: 0, width: 1, height: 2 } },
        ]
    );
    assert_eq!(atlas.contents[0], 1);
    assert_eq!(atlas.contents[2], 2);
}

#[test]
fn glyphs_without_image_are_skipped_and_keep_the_pen() {
    let mut atlas = GlyphAtlas::new(8, 8);
    let space = ShapedGlyph { key: 9, image: None, advance: 7 };
    let glyphs = vec![glyph(1, 1, 1, 3), space, glyph(2, 1, 1, 3)];
    let placed = layout_glyphs(&mut atlas, &glyphs, 0, 0);
    assert_eq!(placed.len(), 2);
    assert_eq!(placed[1].x, 3);
}

#[test]
fn repeated_glyph_reuses_its_atlas_place() {
    let mut atlas = GlyphAtlas::new(8, 8);
    let glyphs = vec![glyph(4, 2, 2, 2), glyph(4, 2, 2, 2), glyph(4, 2, 2, 2)];
    let placed = layout_glyphs(&mut atlas, &glyphs, 0, 0);
    assert_eq!(placed.len(), 3);
    assert!(placed.iter().all(|p| p.atlas == GlyphPosition { x: 0, y: 0, width: 2, height: 2 }));
    assert_eq!(placed.iter().map(|p| p.x).collect::<Vec<_>>(), vec![0, 2, 4]);
}

#[test]
fn empty_line_places_nothing() {
    let mut atlas = GlyphAtlas::new(2, 2);
    assert!(layout_glyphs(&mut atlas, &Vec::new(), 0, 0).is_empty());
    assert_eq!(atlas.contents, vec![0; 4]);
}

#[test]
fn fits_line_accepts_what_fits() {
    let atlas = GlyphAtlas::new(4, 4);
    assert!(fits_line(&atlas, &vec![glyph(1, 2, 2, 2), glyph(2, 2, 2, 2)], 0));
    // a cached glyph needs no room
    let mut full = GlyphAtlas::new(2, 2);
    full.add(1, &GlyphImage { width: 2, height: 2, data: vec![0; 4] });
    assert!(fits_line(&full, &vec![glyph(1, 2, 2, 2)], 0));
}

#[test]
fn fits_line_refuses_glyph_below_last_shelf() {
    let atlas = GlyphAtlas::new(4, 4);
    assert!(!fits_line(&atlas, &vec![glyph(1, 1, 5, 1)], 0));
    // the second glyph starts a new shelf at y = 3, too low for its height 2
    assert!(!fits_line(&atlas, &vec![glyph(1, 4, 3, 1), glyph(2, 1, 2, 1)], 0));
}

#[test]
fn fits_line_refuses_pen_overflow() {
    let atlas = GlyphAtlas::new(4, 4);
    assert!(!fits_line(&atlas, &vec![glyph(1, 1, 1, 10)], u32::MAX - 5));
    assert!(fits_line(&atlas, &vec![ShapedGlyph { key: 1, image: None, advance: 10 }], u32::MAX - 5));
}
