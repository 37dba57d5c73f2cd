use vstd::prelude::*;

mod table;

pub mod nakamoto_consensus;
pub mod net_view;
pub mod peers;
pub mod rng;
pub mod scheduler;
pub mod sim;
pub mod simple_flooding;
pub mod underlay;
pub mod world;

pub use table::Table;

verus! {

/// An opaque, totally ordered handle naming a simulated node or an
/// in-flight message. Existence in the world is its only state.
#[derive(Clone, Copy, PartialEq, Eq, Structural, Debug, Hash)]
pub struct Entity {
    pub id: u64,
}

impl Entity {
    pub fn new(id: u64) -> (r: Entity)
        ensures
            r.id == id,
    {
        Entity { id }
    }
}

} // verus!
