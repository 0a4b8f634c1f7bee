//! A codec for the Note Block Studio song format.
//!
//! A song file is a header, a grid of notes written as jumps from one
//! occupied cell to the next, a list of layers and a list of custom
//! instruments. [`NbsParser`] turns bytes into an [`NbsFile`]; [`NbsWriter`]
//! turns an [`NbsFile`] back into bytes. [`decode`] and [`encode`] do the
//! same in one call.
//!
//! Every function is verified against a mathematical description of the
//! bytes it reads or writes:
//!
//! - [`endian`]: numbers as little-endian bytes;
//! - [`cursor`]: the reader and the writer, and single values;
//! - [`song`]: the song in memory;
//! - [`header`], [`notes`], [`layers`], [`instruments`]: the four parts of a
//!   file;
//! - [`order`]: the order in which notes are written;
//! - [`panning`]: how a panning is stored in a byte;
//! - [`codec`]: the whole file;
//! - [`laws`]: what is written is read back, and what is cut short is
//!   refused.
//!
//! Reading never panics and never reads past the end of the buffer. It checks
//! the layout and nothing else: a key or a panning outside the range that an
//! editor would offer is passed on as it is.

pub mod codec;
pub mod cursor;
pub mod endian;
pub mod error;
pub mod header;
pub mod instruments;
pub mod laws;
pub mod layers;
pub mod notes;
pub mod order;
pub mod panning;
pub mod song;

pub use crate::codec::{decode, encode};
pub use crate::cursor::{NbsParser, NbsWriter};
pub use crate::error::NbsError;
pub use crate::song::{Header, Instrument, Layer, NbsFile, Note, CURRENT_NBS_VERSION};
