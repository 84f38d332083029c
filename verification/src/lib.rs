//! Viewport frames of a terminal area, and minimal row-level patches
//! between two frames.
//!
//! Render the content into a [`Frame`] (eg by writing it into a
//! [`FrameBuilder`]), keep it, and when the content changes compute
//! [`Frame::diff`] and write the resulting [`FramePatch`] instead of
//! the whole screen. A frame carries its geometry, a fingerprint of the
//! skin and a format version: a frame which doesn't match the current
//! area or skin ([`Frame::check`]) gets a full rewrite.

pub mod ansi;
pub mod builder;
pub mod cell;
pub mod frame;
pub mod glyphs;
pub mod laws;
pub mod line;
pub mod patch;
pub mod style;
pub mod text;

pub use builder::FrameBuilder;
pub use cell::Cell;
pub use frame::{Area, Frame, FrameMismatch, FRAME_FORMAT_VERSION};
pub use line::{LinePatch, PatchSpan};
pub use patch::{FramePatch, PatchOp};
pub use style::{CellStyle, FrameColor};
