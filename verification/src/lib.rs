//! A persistent store of resources by kind, and a breadth-first search over
//! the states that are derived from it.

pub mod fx;
pub mod search;
pub mod slot;
pub mod state;

pub use search::{search, Round, SearchCollector, SearchState};
pub use slot::{RootMap, SlotMap, SlotNode};
pub use state::{Descent, RootState, State, TraceIter};
