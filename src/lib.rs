//! A map that chooses the key of each value it stores: a dense slot array
//! whose free slots form a run-length encoded free list.
pub mod iter;
pub mod model;
pub mod slab_map;

pub use iter::{Drain, IntoIter, Iter, IterMut, Keys, Values, ValuesMut};
pub use slab_map::SlabMap;
