//! A verified projection engine for a hierarchical domain (documents that
//! own groups that own notes) stored in a single flat partitioned
//! key-value table.
//!
//! The library covers three concerns:
//! - the key scheme that encodes entity type, identity and parent linkage
//!   into composite keys (`keys`),
//! - the read-side aggregator that rebuilds the hierarchy from an
//!   unordered set of flat items by parent-pointer joins (`aggregate`),
//! - the write-side fan-out that turns a hierarchical request into the
//!   linked flat items of one atomic write (`fanout`, `notes`).
//!
//! The storage gateway itself (scan, get, put, transactional put) is an
//! external collaborator; `store` holds a verified in-memory model of its
//! contract. `laws` proves the properties that tie the pieces together:
//! writing a document and aggregating its items reproduces the request,
//! an interrupted transaction is unobservable, and an orphaned child
//! changes nothing.
//!
//! Entities are created once and then read back assembled; update and
//! delete paths are deliberately out of scope, so ownership is never
//! partially invalidated.

pub mod aggregate;
pub mod attr;
pub mod clock;
pub mod entities;
pub mod error;
pub mod fanout;
pub mod index;
pub mod keys;
pub mod laws;
pub mod notes;
pub mod requests;
pub mod store;

pub use attr::{AttrValue, FlatItem};
pub use error::CoreError;
