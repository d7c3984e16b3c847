use navigator::NavGraph;
use navigator::NavPoint;
use navigator::NavPointIdFreelist;
use navigator::NavigatorPlugin;
use navigator::Vec3i;

#[test]
fn test_basic_route() {
    let mut nav_graph = NavGraph::new();
    nav_graph.add_nav_point(NavPoint::new(1, Vec3i::new(0, 0, 0), 1, 1));
    nav_graph.add_nav_point(NavPoint::new(2, Vec3i::new(0, 1, 0), 1, 1));
    nav_graph.add_nav_point(NavPoint::new(3, Vec3i::new(0, 2, 0), 1, 1));

    nav_graph.connect_points(1, 2);
    nav_graph.connect_points(2, 3);

    let path = nav_graph.find_path(1, 3);
    assert!(path.is_some());
    let p = path.unwrap();
    assert_eq!(p.len(), 2);
    assert_eq!(p[0], 2);
    assert_eq!(p[1], 3);
}

#[test]
fn test_occupancy() {
    let mut nav_graph = NavGraph::new();
    nav_graph.add_nav_point(NavPoint::new(1, Vec3i::new(0, 0, 0), 1, 1));
    nav_graph.add_nav_point(NavPoint::new(2, Vec3i::new(0, 1, 0), 1, 1));
    nav_graph.add_nav_point(NavPoint::new(3, Vec3i::new(1, 1, 0), 1, 1));
    nav_graph.add_nav_point(NavPoint::new(4, Vec3i::new(0, 2, 0), 1, 1));

    nav_graph.connect_points(1, 2);
    nav_graph.connect_points(1, 3);
    nav_graph.connect_points(2, 4);
    nav_graph.connect_points(3, 4);
    nav_graph.occupy(2);

    let path = nav_graph.find_path(1, 4).unwrap();
    assert_eq!(path[0], 3);
    assert_eq!(path[1], 4);

    nav_graph.occupy(3);
    assert!(nav_graph.find_path(1, 4).is_none());

    nav_graph.unoccupy(2);
    assert_eq!(nav_graph.find_path(1, 4).unwrap()[0], 2);
}

#[test]
fn test_remove() {
    let mut nav_graph = NavGraph::new();
    nav_graph.add_nav_point(NavPoint::new(1, Vec3i::new(0, 0, 0), 1, 1));
    nav_graph.add_nav_point(NavPoint::new(2, Vec3i::new(0, 1, 0), 1, 1));
    nav_graph.add_nav_point(NavPoint::new(3, Vec3i::new(1, 1, 0), 1, 1));
    nav_graph.add_nav_point(NavPoint::new(4, Vec3i::new(0, 2, 0), 1, 1));

    nav_graph.connect_points(1, 2);
    nav_graph.connect_points(1, 3);
    nav_graph.connect_points(2, 4);
    nav_graph.connect_points(3, 4);

    assert_eq!(nav_graph.find_path(1, 4).unwrap()[0], 2);

    nav_graph.remove_point(2);
    assert_eq!(nav_graph.find_path(1, 4).unwrap()[0], 3);
}

#[test]
fn test_chain_route_in_order() {
    // A straight chain of five waypoints: the route from first to last is
    // exactly the four remaining ids, in order.
    let mut g = NavGraph::new();
    for i in 1..=5u32 {
        g.add_nav_point(NavPoint::new(i, Vec3i::new(0, i as i32, 0), 1, 1));
    }
    for i in 1..5u32 {
        g.connect_points(i, i + 1);
    }
    let p = g.find_path(1, 5).unwrap();
    assert_eq!(p, vec![2, 3, 4, 5]);
}

#[test]
fn test_find_path_to_self_is_empty() {
    let mut g = NavGraph::new();
    g.add_nav_point(NavPoint::new(7, Vec3i::new(3, 4, 5), 1, 1));
    let p = g.find_path(7, 7);
    assert!(p.is_some());
    assert_eq!(p.unwrap().len(), 0);
}

#[test]
fn test_find_path_missing_endpoints() {
    let mut g = NavGraph::new();
    g.add_nav_point(NavPoint::new(1, Vec3i::new(0, 0, 0), 1, 1));
    assert!(g.find_path(1, 2).is_none());
    assert!(g.find_path(2, 1).is_none());
    assert!(g.find_path(5, 5).is_none());
    assert!(g.find_path(1, 1).is_some());
}

#[test]
fn test_unconnected_points_have_no_route() {
    let mut g = NavGraph::new();
    g.add_nav_point(NavPoint::new(1, Vec3i::new(0, 0, 0), 1, 1));
    g.add_nav_point(NavPoint::new(2, Vec3i::new(1, 0, 0), 1, 1));
    assert!(g.find_path(1, 2).is_none());
    g.connect_points(1, 2);
    assert!(g.find_path(1, 2).is_some());
}

#[test]
fn test_full_waypoint_stays_in_graph() {
    // Saturating a waypoint removes it from consideration as a hop but
    // `has_node` stays true.
    let mut g = NavGraph::new();
    g.add_nav_point(NavPoint::new(1, Vec3i::new(0, 0, 0), 1, 1));
    g.add_nav_point(NavPoint::new(2, Vec3i::new(0, 1, 0), 1, 1));
    g.add_nav_point(NavPoint::new(3, Vec3i::new(0, 2, 0), 1, 1));
    g.connect_points(1, 2);
    g.connect_points(2, 3);
    assert!(g.find_path(1, 3).is_some());
    assert!(g.occupy(2));
    assert!(g.has_node(2));
    assert!(g.find_path(1, 3).is_none());
    g.unoccupy(2);
    assert!(g.find_path(1, 3).is_some());
}

#[test]
fn test_connect_idempotent() {
    let mut g = NavGraph::new();
    g.add_nav_point(NavPoint::new(1, Vec3i::new(0, 0, 0), 1, 1));
    g.add_nav_point(NavPoint::new(2, Vec3i::new(0, 1, 0), 1, 1));
    g.connect_points(1, 2);
    g.connect_points(1, 2);
    let c1 = g.get_nav_point(1).unwrap().connections().clone();
    let c2 = g.get_nav_point(2).unwrap().connections().clone();
    assert_eq!(c1, vec![2]);
    assert_eq!(c2, vec![1]);
}

#[test]
fn test_connect_missing_is_noop() {
    let mut g = NavGraph::new();
    g.add_nav_point(NavPoint::new(1, Vec3i::new(0, 0, 0), 1, 1));
    g.connect_points(1, 9);
    g.connect_points(9, 1);
    assert!(g.get_nav_point(1).unwrap().connections().is_empty());
}

#[test]
fn test_remove_clears_back_references() {
    let mut g = NavGraph::new();
    g.add_nav_point(NavPoint::new(1, Vec3i::new(0, 0, 0), 1, 1));
    g.add_nav_point(NavPoint::new(2, Vec3i::new(0, 1, 0), 1, 1));
    g.add_nav_point(NavPoint::new(3, Vec3i::new(0, 2, 0), 1, 1));
    g.connect_points(1, 2);
    g.connect_points(2, 3);
    g.remove_point(2);
    assert!(!g.has_node(2));
    assert!(!g.get_nav_point(1).unwrap().connections().contains(&2));
    assert!(!g.get_nav_point(3).unwrap().connections().contains(&2));
    assert!(g.find_path(1, 3).is_none());
}

#[test]
fn test_occupancy_counters() {
    let mut g = NavGraph::new();
    g.add_nav_point(NavPoint::new(1, Vec3i::new(0, 0, 0), 1, 2));
    assert!(g.can_occupy(1));
    assert!(!g.can_occupy(9));
    assert!(g.occupy(1));
    assert!(g.occupy(1));
    assert!(!g.occupy(1));
    assert_eq!(g.get_nav_point(1).unwrap().current_occupancy(), 2);
    assert!(!g.occupy(9));
    g.unoccupy(1);
    g.unoccupy(1);
    g.unoccupy(1);
    assert_eq!(g.get_nav_point(1).unwrap().current_occupancy(), 0);
    g.unoccupy(9);
}

#[test]
fn test_nav_point_getters() {
    let p = NavPoint::new(42, Vec3i::new(1, -2, 3), 4, 5);
    assert_eq!(p.id(), 42);
    assert_eq!(p.location(), Vec3i::new(1, -2, 3));
    assert_eq!(p.speed_modifier(), 4);
    assert_eq!(p.max_occupancy(), 5);
    assert_eq!(p.current_occupancy(), 0);
    assert!(p.can_occupy());
    assert!(p.connections().is_empty());
}

#[test]
fn test_nav_point_occupy_unoccupy() {
    let mut p = NavPoint::new(1, Vec3i::new(0, 0, 0), 1, 1);
    assert!(p.occupy());
    assert!(!p.can_occupy());
    assert!(!p.occupy());
    assert_eq!(p.current_occupancy(), 1);
    p.unoccupy();
    assert_eq!(p.current_occupancy(), 0);
    p.unoccupy();
    assert_eq!(p.current_occupancy(), 0);
}

#[test]
fn test_graph_len_and_overwrite() {
    let mut g = NavGraph::with_capacity(16);
    assert!(g.is_empty());
    assert_eq!(g.len(), 0);
    assert!(NavGraph::default().is_empty());
    g.add_nav_point(NavPoint::new(1, Vec3i::new(0, 0, 0), 1, 1));
    g.add_nav_point(NavPoint::new(2, Vec3i::new(0, 1, 0), 1, 1));
    g.connect_points(1, 2);
    assert_eq!(g.len(), 2);
    // Re-adding an existing id rewires it: the old connections are gone.
    g.add_nav_point(NavPoint::new(1, Vec3i::new(5, 5, 5), 1, 1));
    assert_eq!(g.len(), 2);
    assert!(g.get_nav_point(1).unwrap().connections().is_empty());
    assert!(!g.get_nav_point(2).unwrap().connections().contains(&1));
}

#[test]
fn test_speed_modifier_steers_route() {
    // Two routes of equal geometry: the one through the faster middle
    // waypoint is cheaper, because the cost of entering a waypoint divides
    // by its speed modifier.
    let mut g = NavGraph::new();
    g.add_nav_point(NavPoint::new(1, Vec3i::new(0, 0, 0), 1, 1));
    g.add_nav_point(NavPoint::new(2, Vec3i::new(-1, 1, 0), 1, 1));
    g.add_nav_point(NavPoint::new(3, Vec3i::new(1, 1, 0), 4, 1));
    g.add_nav_point(NavPoint::new(4, Vec3i::new(0, 2, 0), 1, 1));
    g.connect_points(1, 2);
    g.connect_points(1, 3);
    g.connect_points(2, 4);
    g.connect_points(3, 4);
    let p = g.find_path(1, 4).unwrap();
    assert_eq!(p, vec![3, 4]);
}

#[test]
fn test_freelist_is_fifo() {
    let mut f = NavPointIdFreelist::new();
    assert_eq!(f.next(), None);
    f.freed(3);
    f.freed(8);
    assert_eq!(f.next(), Some(3));
    assert_eq!(f.next(), Some(8));
    assert_eq!(f.next(), None);
}

#[test]
fn test_plugin_capacity() {
    let plugin = NavigatorPlugin::new();
    assert_eq!(plugin.initial_graph_capacity, 0);
    let plugin = plugin.with_capacity(64);
    assert_eq!(plugin.initial_graph_capacity, 64);
    let g = NavGraph::with_capacity(plugin.initial_graph_capacity);
    assert!(g.is_empty());
}
