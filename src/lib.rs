//! Reading and rewriting the save image of the LittleSoundDj Game Boy tracker:
//! the block compression codec, the block allocation table and the import and
//! export of songs.
use vstd::prelude::*;

pub mod compression;
pub mod metadata;
pub mod save;

pub use compression::{LsdjBlock, LsdjBlockExt, LsdjSram};
pub use metadata::{lsdjtitle_from, LsdjMetadata, LsdjTitle};
pub use save::LsdjSave;

verus! {

/// Size of one block of compressed song data.
pub const BLOCK_SIZE: usize = 0x200;

/// Number of blocks in the block table of a save image.
pub const BLOCK_COUNT: usize = 0xbe;

/// Size of the working memory (four banks of 0x2000 bytes).
pub const SRAM_SIZE: usize = 0x8000;

/// The ways in which an operation on a save image can fail.
#[derive(Clone, Copy, Debug, PartialEq, Eq, Structural)]
pub enum LsdjError {
    /// No song slot is free.
    SongsFull,
    /// A compressed byte stream, or a block file, is malformed.
    BadFormat,
    /// Fewer blocks are free than a song needs.
    NoBlocks,
    /// A block that was to be reserved already belongs to a song.
    BlockTaken,
    /// A block holds no chain pointer that could be redirected.
    NoSkip,
    /// A title is too long or holds a character that titles cannot hold.
    BadTitle,
}

impl LsdjError {
    /// A short human-readable description of the error.
    pub fn message(&self) -> (r: &'static str) {
        match self {
            LsdjError::SongsFull => "song slots full!",
            LsdjError::BadFormat => "blocks are incorrectly formatted!",
            LsdjError::NoBlocks => "not enough free blocks left!",
            LsdjError::BlockTaken => "block is already taken!",
            LsdjError::NoSkip => "block contains no skip instruction!",
            LsdjError::BadTitle => "title must be at most 8 characters, A-Z0-9x.",
        }
    }
}

} // verus!
