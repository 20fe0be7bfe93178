//! State and rendering logic of a terminal IRC client: buffers, scrollback,
//! nick lists, the input line with completion, and the layout of the screen.

pub mod text;
pub mod app;
pub mod nicks;
pub mod clock;
pub mod complete;
pub mod keys;
pub mod ui;
pub mod wrap;
pub mod render;
pub mod layout;
pub mod demo;
pub mod laws;
