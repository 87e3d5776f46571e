//! Verified core of the editor crate.

pub mod input;
pub mod focus;
pub mod path_model;
pub mod mini_buffer;
pub mod find_target;
pub mod file_picker;
pub mod event_channel;
pub mod fuzzy;
pub mod file_change_debouncer;
pub mod file_change_suppression;
pub mod file_index;
pub mod text_position;
pub mod editor_state;
