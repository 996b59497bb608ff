pub mod buffer;
pub mod command;
pub mod editor_event;
pub mod event;
pub mod event_bus;
pub mod input_event;
pub mod keybinds;
pub mod lua_runtime;
pub mod rope_text;
pub mod split_tree;
pub mod splits;
pub mod text_buffer;
pub mod text_util;
pub mod user_mode;
pub mod user_state;
pub mod workspace;
pub mod workspace_event;
