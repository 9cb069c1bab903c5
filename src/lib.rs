//! Best-fit layout of document trees onto a fixed line width.

pub mod doc;
pub mod layout;
pub mod render;
pub mod laws;

pub use doc::Doc;
pub use layout::{best, Mode};
pub use render::{
    ByteWriter, FmtWrite, IoWrite, Mark, Render, RenderAnnotated, StyleStack, TextWriter,
};
