//! tinygif - A tiny GIF decoder for embedded systems.
//!
//! A file is read from a byte slice and its parts borrow from that slice. [`Gif::from_slice`]
//! reads the header, [`Gif::frames`] walks through the frames, and [`Frame::decode_to_rgb`] turns
//! a frame into a picture. [`Frame::cursor`] hands out the pixels of a frame step by step, for a
//! display that draws them itself.

pub mod bitstream;
pub mod blocks;
pub mod coding;
pub mod color;
pub mod drawing_laws;
pub mod error;
pub mod format_laws;
pub mod frame;
pub mod geometry;
pub mod gif;
pub mod header;
pub mod laws;
pub mod lzw;
pub mod parser;
pub mod placement;
pub mod segment;
pub mod stream_laws;

pub use blocks::LenPrefixRawDataView;
pub use color::{ColorTable, Rgb888};
pub use error::ParseError;
pub use frame::{DrawStep, Frame, FrameCursor};
pub use geometry::{Rectangle, Size};
pub use gif::{FrameIterator, Gif};
pub use header::{Header, RawGif, Version};
pub use placement::{Pixel, Placed, Placement};
pub use segment::{ExtensionBlock, GraphicControl, ImageBlock, Segment};
