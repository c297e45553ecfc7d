//! A minimal document viewer core: pixel buffers of rendered pages,
//! search-hit highlighting, framebuffer compositing, the keyboard-driven
//! viewer state machine and the page bookkeeping of a document.

pub mod document;
pub mod error;
pub mod render;
pub mod text;
pub mod viewer;

pub use document::{check_page_index, join_page_texts, page_png_path, validate_page_count};
pub use error::Error;
pub use render::{apply_highlights, blit_to_buffer, HitBox, RenderedPage};
pub use viewer::{ViewerAction, ViewerKey, ViewerState};
