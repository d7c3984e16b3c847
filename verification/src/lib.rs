//! Occupancy-aware waypoint navigation.
//!
//! The crate keeps a graph of capacity-limited waypoints (`NavGraph` of
//! `NavPoint`s), runs an occupancy-aware A* search over it, and drives
//! travelers (`AutoTraveler`) along the found paths one reservation-hop at a
//! time.  The embedding application owns the tick loop: once per tick it calls
//! `compute_initial_path` for each newly created traveler and then the two
//! movement steps (`begin_move`, `complete_move`) for every active one.

use vstd::prelude::*;

pub mod navigation;
pub mod traveler;

pub use navigation::NavGraph;
pub use navigation::NavPoint;
pub use navigation::NavPointIdFreelist;
pub use navigation::Vec3i;
pub use traveler::AutoTraveler;
pub use traveler::BlockedBehavior;
pub use traveler::DestinationBehavior;
pub use traveler::NoPath;
pub use traveler::PathBehavior;
pub use traveler::TravelStep;
pub use traveler::TravelerPosition;
pub use traveler::TravelingPaused;
pub use traveler::begin_move;
pub use traveler::complete_move;
pub use traveler::compute_initial_path;

verus! {

/// Configuration for an embedding application: how large the navigation
/// graph is expected to grow.  The application reads the capacity when it
/// creates its `NavGraph` resource.
#[derive(Clone, Copy)]
pub struct NavigatorPlugin {
    pub initial_graph_capacity: usize,
}

impl Default for NavigatorPlugin {
    fn default() -> (r: Self)
        ensures
            r.initial_graph_capacity == 0,
    {
        NavigatorPlugin { initial_graph_capacity: 0 }
    }
}

impl NavigatorPlugin {
    pub fn new() -> (r: Self)
        ensures
            r.initial_graph_capacity == 0,
    {
        NavigatorPlugin { initial_graph_capacity: 0 }
    }

    pub fn with_capacity(self, capacity: usize) -> (r: Self)
        ensures
            r.initial_graph_capacity == capacity,
    {
        NavigatorPlugin { initial_graph_capacity: capacity }
    }
}

} // verus!
