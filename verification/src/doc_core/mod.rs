pub mod camera;
pub mod document;
pub mod key;
pub mod mouse;
pub mod user_mode;
