//! Named collections over a record store.

pub mod atomic;
pub mod bind;
pub mod bound;
pub mod catalog;
pub mod db;
pub mod descriptor;
pub mod following;
pub mod grammar;
pub mod laws;
pub mod maker;
pub mod makers;
pub mod naming;
pub mod objects;
pub mod observed;
pub mod schema;
pub mod secondary;
pub mod set;
pub mod store_kind;
pub mod teardown;

pub use atomic::{AtomicBoolean, AtomicInteger, AtomicLong, AtomicString, AtomicVar};
pub use catalog::{NameCatalog, CATALOG_SER, RECID_CATALOG};
pub use db::{DbRollback, DB};
pub use descriptor::{GroupDescriptor, SerDescriptor};
pub use maker::DBMaker;
pub use makers::{
    AtomicBooleanMaker, AtomicIntegerMaker, AtomicLongMaker, AtomicStringMaker, AtomicVarMaker, QueueMaker,
    TreeMapMaker, TreeSetMaker,
};
pub use observed::ObservedMapMaker;
pub use set::{NavigableSet, NavigableSetView, NoValueFormat, NoValueSer};
pub use store_kind::ConfiguredStore;
