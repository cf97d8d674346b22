//! An embedded database engine whose logic is verified: packed wire formats,
//! record stores, a B-link tree map, persistent queues and the named-collection
//! facade over them.

pub mod error;
pub mod io;
pub mod laws;
pub mod lease;
pub mod listener;
pub mod btree;
pub mod db;
pub mod queue;
pub mod ser;
pub mod store;
pub mod text;

pub use error::{DbError, Result};
pub use listener::{
    FnListener, MapExtra, MapModificationListener, ModificationAwareMap,
    SynchronousMapModificationListener,
};
