use navigator::AutoTraveler;
use navigator::BlockedBehavior;
use navigator::DestinationBehavior;
use navigator::NavGraph;
use navigator::NavPoint;
use navigator::PathBehavior;
use navigator::TravelStep;
use navigator::TravelerPosition;
use navigator::Vec3i;
use navigator::begin_move;
use navigator::complete_move;
use navigator::compute_initial_path;

fn chain_graph(n: u32) -> NavGraph {
    let mut g = NavGraph::new();
    for i in 1..=n {
        g.add_nav_point(NavPoint::new(i, Vec3i::new(0, i as i32, 0), 1, 1));
    }
    for i in 1..n {
        g.connect_points(i, i + 1);
    }
    g
}

#[test]
fn test_traveler_defaults_and_builders() {
    let t = AutoTraveler::default();
    assert_eq!(t.origin, 0);
    assert_eq!(t.destination, 0);
    assert!(t.path.is_none());
    assert_eq!(t.current_index, 0);
    assert_eq!(t.speed, 1);
    assert!(matches!(t.blocked_behavior, BlockedBehavior::Recompute));
    assert!(matches!(t.destination_behavior, DestinationBehavior::Exactly));
    assert!(matches!(t.path_behavior, PathBehavior::Precompute));

    let t = AutoTraveler::new(1, 9, 3)
        .with_blocked_behavior(BlockedBehavior::Wait)
        .with_destination_behavior(DestinationBehavior::WithinRadius(2))
        .with_path_behavior(PathBehavior::ProgressiveRecompute);
    assert_eq!(t.origin, 1);
    assert_eq!(t.destination, 9);
    assert_eq!(t.speed, 3);
    assert!(matches!(t.blocked_behavior, BlockedBehavior::Wait));
    assert!(matches!(
        t.destination_behavior,
        DestinationBehavior::WithinRadius(2)
    ));
    assert!(matches!(t.path_behavior, PathBehavior::ProgressiveRecompute));
}

#[test]
fn test_compute_initial_path_success() {
    let g = chain_graph(3);
    let mut t = AutoTraveler::new(1, 3, 1);
    let pos = compute_initial_path(&g, &mut t);
    let pos = pos.expect("a path exists");
    assert_eq!(pos.current_nav_point, 1);
    assert_eq!(pos.next_nav_point, None);
    assert_eq!(t.path, Some(vec![2, 3]));
    // The origin is not reserved by path computation.
    assert_eq!(g.get_nav_point(1).unwrap().current_occupancy(), 0);
}

#[test]
fn test_unreachable_destination_fails_immediately() {
    // Destination exists but is disconnected: the traveler gets no position
    // and keeps no path, so it can never be advanced.
    let mut g = chain_graph(2);
    g.add_nav_point(NavPoint::new(9, Vec3i::new(5, 5, 5), 1, 1));
    let mut t = AutoTraveler::new(1, 9, 1);
    assert!(compute_initial_path(&g, &mut t).is_none());
    assert!(t.path.is_none());
    assert_eq!(t.current_index, 0);

    // A missing destination fails the same way.
    let mut t2 = AutoTraveler::new(1, 77, 1);
    assert!(compute_initial_path(&g, &mut t2).is_none());
    assert!(t2.path.is_none());
}

#[test]
fn test_movement_reserves_and_transfers() {
    // A four-waypoint chain: the path is [2, 3, 4] and reservations target
    // path[current_index + 1], so the hops go through 3 and then 4.
    let mut g = chain_graph(4);
    let mut t = AutoTraveler::new(1, 4, 1);
    let mut pos = compute_initial_path(&g, &mut t).unwrap();
    assert_eq!(t.path, Some(vec![2, 3, 4]));

    // First tick: reserve the next hop and start moving.
    let step = begin_move(&mut g, &t, &mut pos);
    assert_eq!(step, TravelStep::Moving { from: 1, to: 3 });
    assert_eq!(pos.next_nav_point, Some(3));
    assert_eq!(g.get_nav_point(3).unwrap().current_occupancy(), 1);

    // The agent reaches waypoint 3: the reservation transfers in the same
    // tick — 3 stays occupied, 1 is released, the index advances.
    complete_move(&mut g, &mut t, &mut pos);
    assert_eq!(pos, TravelerPosition { current_nav_point: 3, next_nav_point: None });
    assert_eq!(t.current_index, 1);
    assert_eq!(g.get_nav_point(3).unwrap().current_occupancy(), 1);
    assert_eq!(g.get_nav_point(1).unwrap().current_occupancy(), 0);

    // Second hop: on to the destination.
    let step = begin_move(&mut g, &t, &mut pos);
    assert_eq!(step, TravelStep::Moving { from: 3, to: 4 });
    assert_eq!(g.get_nav_point(4).unwrap().current_occupancy(), 1);
    complete_move(&mut g, &mut t, &mut pos);
    assert_eq!(pos.current_nav_point, 4);
    assert_eq!(t.current_index, 2);
    assert_eq!(g.get_nav_point(3).unwrap().current_occupancy(), 0);

    // Path exhausted: the traveler has arrived.
    let step = begin_move(&mut g, &t, &mut pos);
    assert_eq!(step, TravelStep::Arrived);
}

#[test]
fn test_blocked_when_next_is_full() {
    let mut g = chain_graph(3);
    let mut t = AutoTraveler::new(1, 3, 1);
    let mut pos = compute_initial_path(&g, &mut t).unwrap();
    assert_eq!(t.path, Some(vec![2, 3]));
    // The next hop to reserve is path[current_index + 1] = 3; fill it.
    assert!(g.occupy(3));

    // 3 is full: the traveler waits, nothing changes.
    let step = begin_move(&mut g, &t, &mut pos);
    assert_eq!(step, TravelStep::Blocked);
    assert_eq!(pos.next_nav_point, None);
    assert_eq!(g.get_nav_point(3).unwrap().current_occupancy(), 1);

    // Once 3 frees up, the reservation succeeds.
    g.unoccupy(3);
    let step = begin_move(&mut g, &t, &mut pos);
    assert_eq!(step, TravelStep::Moving { from: 1, to: 3 });
}

#[test]
fn test_begin_move_keeps_existing_reservation() {
    let mut g = chain_graph(3);
    let mut t = AutoTraveler::new(1, 3, 1);
    let mut pos = compute_initial_path(&g, &mut t).unwrap();
    assert_eq!(begin_move(&mut g, &t, &mut pos), TravelStep::Moving { from: 1, to: 3 });
    // A second tick before arrival re-reports the same move without taking
    // a second unit of occupancy.
    assert_eq!(begin_move(&mut g, &t, &mut pos), TravelStep::Moving { from: 1, to: 3 });
    assert_eq!(g.get_nav_point(3).unwrap().current_occupancy(), 1);
}

#[test]
fn test_path_to_self_arrives_at_once() {
    let g = chain_graph(2);
    let mut t = AutoTraveler::new(1, 1, 1);
    let mut pos = compute_initial_path(&g, &mut t).unwrap();
    assert_eq!(t.path, Some(vec![]));
    let mut g = g;
    assert_eq!(begin_move(&mut g, &t, &mut pos), TravelStep::Arrived);
}
