//! Travelers: per-agent path state and the per-tick path-following steps.

use vstd::prelude::*;

verus! {

/// What a traveler does when its next waypoint cannot be reserved.
/// Only `Wait` is wired into the movement logic; `Recompute` is a declared
/// extension point and currently behaves like `Wait`.
#[derive(Clone, Copy, Debug, PartialEq, Eq, Structural)]
pub enum BlockedBehavior {
    Wait,
    Recompute,
}

impl Default for BlockedBehavior {
    fn default() -> (r: Self)
        ensures
            r == BlockedBehavior::Recompute,
    {
        BlockedBehavior::Recompute
    }
}

/// How close a traveler must get to its destination.  Only `Exactly` is
/// wired into the movement logic; `WithinRadius` (radius in the same integer
/// units as waypoint coordinates) is a declared extension point.
#[derive(Clone, Copy, Debug, PartialEq, Eq, Structural)]
pub enum DestinationBehavior {
    Exactly,
    WithinRadius(u32),
}

impl Default for DestinationBehavior {
    fn default() -> (r: Self)
        ensures
            r == DestinationBehavior::Exactly,
    {
        DestinationBehavior::Exactly
    }
}

/// When a traveler's path is computed.  Only `Precompute` is wired into the
/// logic; `ProgressiveRecompute` is a declared extension point.
#[derive(Clone, Copy, Debug, PartialEq, Eq, Structural)]
pub enum PathBehavior {
    Precompute,
    ProgressiveRecompute,
}

impl Default for PathBehavior {
    fn default() -> (r: Self)
        ensures
            r == PathBehavior::Precompute,
    {
        PathBehavior::Precompute
    }
}

/// A path-following agent: endpoints, the path computed once at creation,
/// progress along it, movement speed (world units per second) and policy
/// flags.
#[derive(Clone, Debug)]
pub struct AutoTraveler {
    pub origin: u32,
    pub destination: u32,
    pub path: Option<Vec<u32>>,
    pub current_index: usize,
    pub speed: u32,
    pub blocked_behavior: BlockedBehavior,
    pub destination_behavior: DestinationBehavior,
    pub path_behavior: PathBehavior,
}

impl Default for AutoTraveler {
    fn default() -> (r: Self)
        ensures
            r.origin == 0,
            r.destination == 0,
            r.path is None,
            r.current_index == 0,
            r.speed == 1,
            r.blocked_behavior == BlockedBehavior::Recompute,
            r.destination_behavior == DestinationBehavior::Exactly,
            r.path_behavior == PathBehavior::Precompute,
    {
        AutoTraveler {
            origin: 0,
            destination: 0,
            path: None,
            current_index: 0,
            speed: 1,
            blocked_behavior: BlockedBehavior::Recompute,
            destination_behavior: DestinationBehavior::Exactly,
            path_behavior: PathBehavior::Precompute,
        }
    }
}

impl AutoTraveler {
    /// A new traveler that wants to go from `origin` to `destination` at
    /// `speed`.  Its path is not yet computed.
    pub fn new(origin: u32, destination: u32, speed: u32) -> (r: Self)
        ensures
            r.origin == origin,
            r.destination == destination,
            r.speed == speed,
            r.path is None,
            r.current_index == 0,
            r.blocked_behavior == BlockedBehavior::Recompute,
            r.destination_behavior == DestinationBehavior::Exactly,
            r.path_behavior == PathBehavior::Precompute,
    {
        AutoTraveler {
            origin,
            destination,
            speed,
            path: None,
            current_index: 0,
            blocked_behavior: BlockedBehavior::Recompute,
            destination_behavior: DestinationBehavior::Exactly,
            path_behavior: PathBehavior::Precompute,
        }
    }

    pub fn with_blocked_behavior(self, blocked_behavior: BlockedBehavior) -> (r: Self)
        ensures
            r == (AutoTraveler { blocked_behavior, ..self }),
    {
        AutoTraveler { blocked_behavior, ..self }
    }

    pub fn with_destination_behavior(self, destination_behavior: DestinationBehavior) -> (r:
        Self)
        ensures
            r == (AutoTraveler { destination_behavior, ..self }),
    {
        AutoTraveler { destination_behavior, ..self }
    }

    pub fn with_path_behavior(self, path_behavior: PathBehavior) -> (r: Self)
        ensures
            r == (AutoTraveler { path_behavior, ..self }),
    {
        AutoTraveler { path_behavior, ..self }
    }
}

/// Marker for a traveler whose destination was unreachable when its path was
/// computed: it is terminally failed and never moves.
#[derive(Clone, Copy, Debug)]
pub struct NoPath;

/// Marker for a traveler that should not be moved this tick.
#[derive(Clone, Copy, Debug)]
pub struct TravelingPaused;

/// Where a pathed traveler currently is: the waypoint it last committed to,
/// and the next one while a forward reservation is held.
#[derive(Clone, Copy, Debug, PartialEq, Eq, Structural)]
pub struct TravelerPosition {
    pub current_nav_point: u32,
    pub next_nav_point: Option<u32>,
}

/// What this tick's movement step decided for one traveler.
#[derive(Clone, Copy, Debug, PartialEq, Eq, Structural)]
pub enum TravelStep {
    /// The path is exhausted: the traveler has arrived and should be
    /// retired by the caller.
    Arrived,
    /// The next waypoint could not be reserved; no progress this tick.
    Blocked,
    /// A reservation on `to` is held: the caller should move the agent's
    /// world position from `from` toward `to` and, on reaching it, call
    /// [`complete_move`].
    Moving { from: u32, to: u32 },
}

/// The path hops of a pathed traveler.
pub open spec fn path_seq(t: AutoTraveler) -> Seq<u32> {
    t.path.unwrap()@
}

/// A held reservation always points at the traveler's next hop.
pub open spec fn reservation_consistent(t: AutoTraveler, pos: TravelerPosition) -> bool {
    pos.next_nav_point is Some ==> {
        &&& t.current_index + 1 < path_seq(t).len()
        &&& pos.next_nav_point == Some(path_seq(t)[t.current_index + 1])
    }
}

/// Computes the one-time path for a newly created traveler.
///
/// On success the path is stored on the traveler and a fresh
/// [`TravelerPosition`] at the origin, holding no reservation, is returned;
/// the caller should note that the origin itself is *not* reserved here.
/// On failure (`None`) the traveler is unchanged: the caller should mark it
/// with [`NoPath`] — it is terminally failed and must never be moved.
pub fn compute_initial_path(graph: &crate::navigation::NavGraph, traveler: &mut AutoTraveler) -> (r:
    Option<TravelerPosition>)
    requires
        graph.wf(),
    ensures
        match r {
            Some(pos) => {
                &&& final(traveler).path is Some
                &&& crate::navigation::path_connects(
                    graph@,
                    old(traveler).origin,
                    old(traveler).destination,
                    path_seq(*final(traveler)),
                )
                &&& path_seq(*final(traveler)).no_duplicates()
                &&& !path_seq(*final(traveler)).contains(old(traveler).origin)
                &&& pos == (TravelerPosition {
                    current_nav_point: old(traveler).origin,
                    next_nav_point: None::<u32>,
                })
                &&& *final(traveler) == (AutoTraveler {
                    path: final(traveler).path,
                    ..*old(traveler)
                })
                &&& reservation_consistent(*final(traveler), pos)
            },
            None => {
                &&& *final(traveler) == *old(traveler)
                &&& forall|p: Seq<u32>|
                    #[trigger] crate::navigation::path_connects(
                        graph@,
                        old(traveler).origin,
                        old(traveler).destination,
                        p,
                    ) ==> crate::navigation::path_cost(graph@, old(traveler).origin, p)
                        >= u32::MAX
            },
        },
        graph@.dom().contains(old(traveler).origin) && old(traveler).origin == old(
            traveler,
        ).destination ==> r is Some,
{
    match graph.find_path(traveler.origin, traveler.destination) {
        Some(path) => {
            let pos = TravelerPosition {
                current_nav_point: traveler.origin,
                next_nav_point: None,
            };
            traveler.path = Some(path);
            Some(pos)
        },
        None => None,
    }
}

/// The first half of one movement tick: decide whether the traveler has
/// arrived, reserve the next waypoint if none is held, or report that it is
/// blocked.
///
/// Exactly when the next hop exists with occupancy headroom (or a
/// reservation is already held), the result is `Moving` and the caller owns
/// the world-space interpolation toward `to`; a full or missing next hop
/// yields `Blocked` with nothing changed (the traveler waits, whatever its
/// `BlockedBehavior` declares); an exhausted path yields `Arrived`.
pub fn begin_move(
    graph: &mut crate::navigation::NavGraph,
    traveler: &AutoTraveler,
    pos: &mut TravelerPosition,
) -> (r: TravelStep)
    requires
        old(graph).wf(),
        traveler.path is Some,
        reservation_consistent(*traveler, *old(pos)),
    ensures
        final(graph).wf(),
        final(graph).spec_highest_id() == old(graph).spec_highest_id(),
        reservation_consistent(*traveler, *final(pos)),
        ({
            let p = path_seq(*traveler);
            let i = traveler.current_index;
            if i + 1 >= p.len() {
                &&& r == TravelStep::Arrived
                &&& final(graph)@ == old(graph)@
                &&& *final(pos) == *old(pos)
            } else if old(pos).next_nav_point is Some {
                &&& r == (TravelStep::Moving {
                    from: old(pos).current_nav_point,
                    to: old(pos).next_nav_point.unwrap(),
                })
                &&& final(graph)@ == old(graph)@
                &&& *final(pos) == *old(pos)
            } else if crate::navigation::can_occupy_at(old(graph)@, p[i + 1]) {
                &&& r == (TravelStep::Moving { from: old(pos).current_nav_point, to: p[i + 1] })
                &&& final(graph)@ == old(graph)@.insert(
                    p[i + 1],
                    (crate::navigation::NavPointView {
                        current_occupancy: (old(graph)@[p[i + 1]].current_occupancy + 1) as u32,
                        ..old(graph)@[p[i + 1]]
                    }),
                )
                &&& *final(pos) == (TravelerPosition {
                    next_nav_point: Some(p[i + 1]),
                    ..*old(pos)
                })
            } else {
                &&& r == TravelStep::Blocked
                &&& final(graph)@ == old(graph)@
                &&& *final(pos) == *old(pos)
            }
        }),
{
    let path: &Vec<u32> = match &traveler.path {
        Some(p) => p,
        None => {
            proof {
                assert(false);
            }
            return TravelStep::Blocked;
        },
    };
    if traveler.current_index >= path.len() || traveler.current_index + 1 >= path.len() {
        return TravelStep::Arrived;
    }
    match pos.next_nav_point {
        Some(n) => TravelStep::Moving { from: pos.current_nav_point, to: n },
        None => {
            let next = path[traveler.current_index + 1];
            if graph.occupy(next) {
                pos.next_nav_point = Some(next);
                TravelStep::Moving { from: pos.current_nav_point, to: next }
            } else {
                TravelStep::Blocked
            }
        },
    }
}

/// The second half of one movement tick, called when the agent's world
/// position has reached the reserved waypoint: the departed waypoint is
/// released, the reservation is committed as the new current waypoint, and
/// the path index advances — all in the same tick, so the reservation on
/// the reached waypoint is never dropped in between.
pub fn complete_move(
    graph: &mut crate::navigation::NavGraph,
    traveler: &mut AutoTraveler,
    pos: &mut TravelerPosition,
)
    requires
        old(graph).wf(),
        old(traveler).path is Some,
        old(traveler).current_index + 1 < path_seq(*old(traveler)).len(),
        old(pos).next_nav_point == Some(path_seq(*old(traveler))[old(traveler).current_index + 1]),
    ensures
        final(graph).wf(),
        final(graph).spec_highest_id() == old(graph).spec_highest_id(),
        *final(traveler) == (AutoTraveler {
            current_index: (old(traveler).current_index + 1) as usize,
            ..*old(traveler)
        }),
        *final(pos) == (TravelerPosition {
            current_nav_point: path_seq(*old(traveler))[old(traveler).current_index + 1],
            next_nav_point: None::<u32>,
        }),
        reservation_consistent(*final(traveler), *final(pos)),
        ({
            let c = old(pos).current_nav_point;
            if old(graph)@.dom().contains(c) {
                final(graph)@ == old(graph)@.insert(
                    c,
                    (crate::navigation::NavPointView {
                        current_occupancy: if old(graph)@[c].current_occupancy > 0 {
                            (old(graph)@[c].current_occupancy - 1) as u32
                        } else {
                            0
                        },
                        ..old(graph)@[c]
                    }),
                )
            } else {
                final(graph)@ == old(graph)@
            }
        }),
{
    let next = match pos.next_nav_point {
        Some(n) => n,
        None => {
            proof {
                assert(false);
            }
            0
        },
    };
    let path_len: usize = match &traveler.path {
        Some(p) => p.len(),
        None => 0,
    };
    graph.unoccupy(pos.current_nav_point);
    pos.current_nav_point = next;
    pos.next_nav_point = None;
    proof {
        assert(traveler.current_index + 1 < path_len);
    }
    traveler.current_index = traveler.current_index + 1;
}

} // verus!
