//! Decoding and re-encoding of a game's resource containers: the two-level
//! key/archive index, with extraction of resources from its data archives,
//! and the self-contained resource pack, with lookups, loading of resource
//! bytes, and rewriting after change.
pub mod bif;
pub mod bytes;
pub mod catalog;
pub mod erf;
pub mod error;
pub mod round_trip;
pub mod twoda;

pub use bif::{BIFResource, Bif};
pub use catalog::resource_extension;
pub use erf::{Erf, ErfMetadata, ErfResource, LocalizedString};
pub use error::Error;
pub use twoda::TwoDA;
