//! Ordered maps over a record store.

pub mod node;
pub mod tree;
pub mod contents;
pub mod range;
pub mod map;
pub mod steps;
pub mod grow;
pub mod laws;
pub mod view;
pub mod pump;

pub use map::iter::EntryIter;
pub use map::BTreeMap;
pub use pump::{NodeSink, TreePump};
pub use view::{OrderedMapAdapter, RangeView};
