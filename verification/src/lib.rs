//! Reading of SqPack archives: the `.index` tables that map folder and file
//! hashes to where a file is stored, the `.dat` entries that hold the stored
//! files, and the decoding of their blocks.

pub mod archive;
pub mod buffer;
pub mod codec;
pub mod data;
pub mod error;
pub mod index;
pub mod index_laws;
pub mod inflate;
pub mod raw_file;
pub mod read_laws;

pub use archive::SqPackArchive;
pub use data::{File, FileHeader, FileType, SqPackData};
pub use error::{Result, SqPackReaderError};
pub use index::SqPackIndex;
pub use raw_file::{BlockHeader, SqPackRawFile};
