pub mod shortcut_generator;
pub mod stream_length;
