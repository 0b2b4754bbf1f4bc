//! Writing 7z archives: the header, the packed streams, and the BCJ2 filter for x86 code.
//!
//! An [`ArchiveWriter`] takes members and blocks and hands the bytes of the archive on as they are
//! made. A block can be compressed away from it, with [`prepare_block`] or [`prepare_bcj2_block`],
//! and pushed later.

pub mod archive;
pub mod checksum;
pub mod codec;
pub mod encoder;
pub mod encoder_options;
pub mod error;
pub mod laws;
pub mod text;
pub mod wire;
pub mod writer;

pub use crate::archive::ArchiveEntry;
pub use crate::encoder_options::{
    AesEncoderOptions, EncoderConfiguration, EncoderMethod, EncoderOptions, LzmaOptions, Password,
};
pub use crate::error::Error;
pub use crate::writer::append::Archive;
pub use crate::writer::prepared::{
    prepare_bcj2_block, prepare_block, Bcj2Methods, PreparedBlock,
};
pub use crate::writer::source_reader::SourceReader;
pub use crate::writer::{ArchiveWriter, AutoFinisher, Finished, Mark};
