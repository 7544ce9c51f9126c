//! An in-process, deduplicating record store with a binary file image.
//!
//! [`Database`] holds a typed collection of records in memory, enforcing that
//! no two stored records compare equal.  Records can be added, removed,
//! replaced and queried by arbitrary field selectors.  The whole store can be
//! framed into a byte image (and recovered from one) through the codec in
//! [`codec`]; reading and writing the image file is left to the embedding
//! program.

pub mod codec;
pub mod database;
pub mod error;
pub mod paths;

pub use database::Database;
pub use error::DatabaseError;
