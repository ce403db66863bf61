//! Reading and writing the records of Unreal Engine pak archives: the headers of entries, in the
//! index and in front of the data, the footer, compressed blocks, and the encryption of files
//! that some games add.

pub mod blocks;
pub mod bytes;
pub mod cipher;
pub mod codec;
pub mod data;
pub mod encoded;
pub mod entry;
pub mod error;
pub mod file;
pub mod footer;
pub mod layout;
pub mod oodle;
pub mod roundtrip;
pub mod stream;
pub mod variant;
pub mod version;

pub use bytes::Reader;
pub use cipher::Key;
pub use data::PartialEntry;
pub use entry::{Block, Entry, EntryLocation};
pub use error::{Error, IoError};
pub use footer::Footer;
pub use variant::{EncryptionContext, EncryptionPlan, PakVariant};
pub use version::{Compression, Version, VersionMajor, MAGIC};
