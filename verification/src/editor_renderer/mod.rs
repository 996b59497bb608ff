pub mod atlas;
pub mod glyph_atlas;
pub mod pixels;
pub mod state;
pub mod text_layout;
pub mod text_renderer;
