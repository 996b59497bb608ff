use notetaker::editor_renderer::atlas::{GlyphAtlas, GlyphImage, GlyphPosition};
use notetaker::editor_renderer::glyph_atlas::{GlyphAtlas as TextAtlas, GlyphAtlasError};
use notetaker::editor_renderer::pixels::put_pixels;

fn image(width: u32, height: u32, data: Vec<u8>) -> GlyphImage {
    GlyphImage { width, height, data }
}

fn pos(x: u32, y: u32, width: u32, height: u32) -> GlyphPosition {
    GlyphPosition { x, y, width, height }
}

#[test]
fn new_atlas_is_blank() {
    let a = GlyphAtlas::new(4, 3);
    assert_eq!(a.max_x, 4);
    assert_eq!(a.max_y, 3);
    assert_eq!(a.contents, vec![0u8; 12]);
}

#[test]
fn glyphs_fill_a_shelf_left_to_right() {
    let mut a = GlyphAtlas::new(4, 4);
    assert_eq!(a.add(1, &image(2, 2, vec![1, 2, 3, 4])), pos(0, 0, 2, 2));
    assert_eq!(a.add(2, &image(2, 1, vec![5, 6])), pos(2, 0, 2, 1));
    assert_eq!(
        a.contents,
        vec![
            1, 2, 5, 6, //
            3, 4, 0, 0, //
            0, 0, 0, 0, //
            0, 0, 0, 0,
        ]
    );
}

#[test]
fn glyph_too_wide_for_shelf_starts_a_new_one_below_tallest() {
    let mut a = GlyphAtlas::new(4, 4);
    a.add(1, &image(2, 2, vec![1, 1, 1, 1]));
    a.add(2, &image(2, 1, vec![2, 2]));
    assert_eq!(a.add(3, &image(1, 1, vec![9])), pos(0, 2, 1, 1));
    assert_eq!(a.contents[8], 9);
}

#[test]
fn cached_glyph_is_returned_without_copying() {
    let mut a = GlyphAtlas::new(4, 4);
    let first = a.add(1, &image(2, 2, vec![1, 2, 3, 4]));
    let before = a.contents.clone();
    let again = a.add(1, &image(1, 1, vec![7]));
    assert_eq!(first, again);
    assert_eq!(a.contents, before);
    // the pen did not move: the next glyph goes right after the first
    assert_eq!(a.add(2, &image(1, 1, vec![8])), pos(2, 0, 1, 1));
}

#[test]
fn text_atlas_places_and_caches() {
    let mut a = TextAtlas::new(4, 4);
    assert_eq!(a.width, 4);
    assert_eq!(a.height, 4);
    assert_eq!(a.add(&image(3, 2, vec![1, 2, 3, 4, 5, 6]), 10), Ok(pos(0, 0, 3, 2)));
    assert_eq!(a.add(&image(1, 1, vec![0]), 10), Ok(pos(0, 0, 3, 2)));
    assert_eq!(a.contents[..8].to_vec(), vec![1, 2, 3, 0, 4, 5, 6, 0]);
}

#[test]
fn text_atlas_overflow_is_an_error_and_moves_the_pen() {
    let mut a = TextAtlas::new(4, 4);
    assert_eq!(a.add(&image(4, 3, vec![1; 12]), 1), Ok(pos(0, 0, 4, 3)));
    // does not fit in width, and the new shelf at y = 3 is too low for it
    assert_eq!(a.add(&image(1, 2, vec![2, 2]), 2), Err(GlyphAtlasError::Overflow));
    // the pen stayed on the new shelf
    assert_eq!(a.add(&image(1, 1, vec![3]), 3), Ok(pos(0, 3, 1, 1)));
    assert_eq!(a.contents[12], 3);
}

#[test]
fn overflow_message() {
    assert!(GlyphAtlasError::Overflow.message().contains("lack of space"));
}

#[test]
fn put_pixels_writes_rows_with_stride() {
    let mut c = vec![0u8; 9];
    put_pixels(&mut c, 3, 1, 1, &vec![7, 8, 9, 10], 2, 2);
    assert_eq!(c, vec![0, 0, 0, 0, 7, 8, 0, 9, 10]);
}

#[test]
fn text_atlas_refuses_glyph_wider_than_itself() {
    let mut a = TextAtlas::new(4, 4);
    assert_eq!(a.add(&image(2, 1, vec![1, 1]), 1), Ok(pos(0, 0, 2, 1)));
    assert_eq!(a.add(&image(5, 1, vec![9; 5]), 2), Err(GlyphAtlasError::Overflow));
    // nothing moved: the next glyph goes right after the first
    assert_eq!(a.add(&image(1, 1, vec![3]), 3), Ok(pos(2, 0, 1, 1)));
    assert_eq!(a.contents[..4].to_vec(), vec![1, 1, 3, 0]);
}

#[test]
fn text_atlas_keeps_earlier_glyph_pixels() {
    let mut a = TextAtlas::new(4, 4);
    a.add(&image(2, 2, vec![1, 2, 3, 4]), 1).unwrap();
    a.add(&image(2, 2, vec![5, 6, 7, 8]), 2).unwrap();
    a.add(&image(3, 1, vec![9, 9, 9]), 3).unwrap();
    assert_eq!(
        a.contents,
        vec![
            1, 2, 5, 6, //
            3, 4, 7, 8, //
            9, 9, 9, 0, //
            0, 0, 0, 0,
        ]
    );
}
