//! The waypoint graph: nodes with locations, speed modifiers and bounded
//! occupancy counters, undirected connections kept symmetric by every
//! mutation, and an occupancy-aware A* search.

use vstd::prelude::*;
use std::collections::BTreeMap;
use std::collections::BTreeSet;
use std::collections::VecDeque;

verus! {

broadcast use vstd::std_specs::btree::group_btree_axioms,
    vstd::std_specs::vecdeque::group_vec_dequeue_axioms;

/// A point in 3-D space with integer coordinates.  World positions are kept
/// on an integer grid so that distances and traversal costs are exact.
#[derive(Clone, Copy, PartialEq, Eq, Structural, Debug)]
pub struct Vec3i {
    pub x: i32,
    pub y: i32,
    pub z: i32,
}

/// `x * x` as a mathematical integer.
pub open spec fn sq(x: int) -> int {
    x * x
}

/// Squared Euclidean distance between two grid points.
pub open spec fn spec_dist_sq(a: Vec3i, b: Vec3i) -> int {
    sq(a.x - b.x) + sq(a.y - b.y) + sq(a.z - b.z)
}

impl Vec3i {
    pub fn new(x: i32, y: i32, z: i32) -> (r: Vec3i)
        ensures
            r == (Vec3i { x, y, z }),
    {
        Vec3i { x, y, z }
    }

    /// Squared distance to `other`, exact (no overflow for any coordinates).
    pub fn distance_squared(self, other: Vec3i) -> (r: u128)
        ensures
            r as int == spec_dist_sq(self, other),
    {
        let dx: i128 = self.x as i128 - other.x as i128;
        let dy: i128 = self.y as i128 - other.y as i128;
        let dz: i128 = self.z as i128 - other.z as i128;
        proof {
            lemma_square_bound(dx as int);
            lemma_square_bound(dy as int);
            lemma_square_bound(dz as int);
        }
        (dx * dx + dy * dy + dz * dz) as u128
    }
}

/// The square of a coordinate difference is non-negative and bounded.
proof fn lemma_square_bound(d: int)
    requires
        -0xffff_ffff <= d <= 0xffff_ffff,
    ensures
        0 <= sq(d) <= 0xffff_fffe_0000_0001,
{
    assert(0 <= d * d <= 0xffff_ffff * 0xffff_ffff) by (nonlinear_arith)
        requires -0xffff_ffff <= d <= 0xffff_ffff;
}

/// The mathematical content of a [`NavPoint`]: its scalar fields plus the
/// neighbor ids as a set.
#[verifier::ext_equal]
pub ghost struct NavPointView {
    pub id: u32,
    pub location: Vec3i,
    pub speed_modifier: u32,
    pub max_occupancy: u32,
    pub current_occupancy: u32,
    pub connections: Set<u32>,
}

/// A node of the navigation graph: a located, capacity-limited waypoint.
///
/// `speed_modifier` scales how fast travelers leave this waypoint and how
/// cheap it is to enter; it is always positive.  `current_occupancy` never
/// exceeds `max_occupancy`.
#[derive(Debug)]
pub struct NavPoint {
    id: u32,
    location: Vec3i,
    speed_modifier: u32,
    connections: Vec<u32>,
    max_occupancy: u32,
    current_occupancy: u32,
}

impl View for NavPoint {
    type V = NavPointView;

    closed spec fn view(&self) -> NavPointView {
        NavPointView {
            id: self.id,
            location: self.location,
            speed_modifier: self.speed_modifier,
            max_occupancy: self.max_occupancy,
            current_occupancy: self.current_occupancy,
            connections: self.connections@.to_set(),
        }
    }
}

impl NavPoint {
    /// Internal well-formedness: positive speed, bounded occupancy, and a
    /// duplicate-free neighbor list.
    pub closed spec fn wf(&self) -> bool {
        &&& self.speed_modifier >= 1
        &&& self.current_occupancy <= self.max_occupancy
        &&& self.connections@.no_duplicates()
    }

    /// A fresh waypoint with no connections and no occupants.
    pub fn new(id: u32, location: Vec3i, speed_modifier: u32, max_occupancy: u32) -> (r: Self)
        requires
            speed_modifier >= 1,
        ensures
            r.wf(),
            r@ == (NavPointView {
                id,
                location,
                speed_modifier,
                max_occupancy,
                current_occupancy: 0,
                connections: Set::<u32>::empty(),
            }),
    {
        let r = NavPoint {
            id,
            location,
            speed_modifier,
            connections: Vec::new(),
            max_occupancy,
            current_occupancy: 0,
        };
        proof {
            assert(r.connections@.to_set() =~= Set::<u32>::empty());
        }
        r
    }

    #[inline(always)]
    pub fn id(&self) -> (r: u32)
        ensures
            r == self@.id,
    {
        self.id
    }

    #[inline(always)]
    pub fn location(&self) -> (r: Vec3i)
        ensures
            r == self@.location,
    {
        self.location
    }

    #[inline(always)]
    pub fn speed_modifier(&self) -> (r: u32)
        ensures
            r == self@.speed_modifier,
    {
        self.speed_modifier
    }

    #[inline(always)]
    pub fn max_occupancy(&self) -> (r: u32)
        ensures
            r == self@.max_occupancy,
    {
        self.max_occupancy
    }

    #[inline(always)]
    pub fn current_occupancy(&self) -> (r: u32)
        ensures
            r == self@.current_occupancy,
    {
        self.current_occupancy
    }

    /// The neighbor ids, in insertion order.
    pub fn connections(&self) -> (r: &Vec<u32>)
        ensures
            r@.to_set() == self@.connections,
    {
        &self.connections
    }

    /// Whether this waypoint has headroom for one more occupant.
    #[inline(always)]
    pub fn can_occupy(&self) -> (r: bool)
        ensures
            r == (self@.current_occupancy < self@.max_occupancy),
    {
        self.current_occupancy < self.max_occupancy
    }

    /// Takes one unit of occupancy if there is headroom; reports whether it
    /// did.  On failure nothing changes.
    #[inline(always)]
    pub fn occupy(&mut self) -> (r: bool)
        requires
            old(self).wf(),
        ensures
            final(self).wf(),
            r == (old(self)@.current_occupancy < old(self)@.max_occupancy),
            r ==> final(self)@ == (NavPointView {
                current_occupancy: (old(self)@.current_occupancy + 1) as u32,
                ..old(self)@
            }),
            !r ==> final(self)@ == old(self)@,
    {
        if self.current_occupancy < self.max_occupancy {
            self.current_occupancy = self.current_occupancy + 1;
            true
        } else {
            false
        }
    }

    /// Releases one unit of occupancy, never going below zero.
    pub fn unoccupy(&mut self)
        requires
            old(self).wf(),
        ensures
            final(self).wf(),
            final(self)@ == (NavPointView {
                current_occupancy: if old(self)@.current_occupancy > 0 {
                    (old(self)@.current_occupancy - 1) as u32
                } else {
                    0
                },
                ..old(self)@
            }),
    {
        if self.current_occupancy > 0 {
            self.current_occupancy = self.current_occupancy - 1;
        } else {
            proof {
                assert(self@ =~= NavPointView { current_occupancy: 0, ..old(self)@ });
            }
        }
    }
}

impl NavPoint {
    /// Adds `other` to the neighbor list (set semantics: no duplicates).
    fn connect_to(&mut self, other: u32)
        requires
            old(self).wf(),
        ensures
            final(self).wf(),
            final(self)@ == (NavPointView {
                connections: old(self)@.connections.insert(other),
                ..old(self)@
            }),
    {
        if !vec_contains(&self.connections, other) {
            proof {
                old(self).connections@.lemma_push_to_set_commute(other);
            }
            self.connections.push(other);
            proof {
                assert(self.connections@.no_duplicates()) by {
                    assert forall|i: int, j: int|
                        0 <= i < self.connections@.len() && 0 <= j < self.connections@.len() && i
                            != j implies self.connections@[i] != self.connections@[j] by {
                        if i < self.connections@.len() - 1 && j < self.connections@.len() - 1 {
                            assert(old(self).connections@[i] != old(self).connections@[j]);
                        }
                    }
                }
                assert(self@ =~~= NavPointView {
                    connections: old(self)@.connections.insert(other),
                    ..old(self)@
                });
            }
        } else {
            proof {
                assert(old(self)@.connections.contains(other));
                assert(self@ =~~= NavPointView {
                    connections: old(self)@.connections.insert(other),
                    ..old(self)@
                });
            }
        }
    }

    /// Drops `other` from the neighbor list if present.
    #[verifier::loop_isolation(false)]
    fn disconnect_from(&mut self, other: u32)
        requires
            old(self).wf(),
        ensures
            final(self).wf(),
            final(self)@ == (NavPointView {
                connections: old(self)@.connections.remove(other),
                ..old(self)@
            }),
    {
        let n = self.connections.len();
        let mut i: usize = 0;
        while i < n
            invariant
                n == self.connections.len(),
                0 <= i <= n,
                *self == *old(self),
                forall|j: int| 0 <= j < i ==> self.connections@[j] != other,
            decreases n - i,
        {
            if self.connections[i] == other {
                self.connections.remove(i);
                proof {
                    let s1 = old(self).connections@;
                    let s2 = self.connections@;
                    let ii = i as int;
                    assert(s2 == s1.remove(ii));
                    s1.remove_ensures(ii);
                    assert(s1[ii] == other);
                    assert forall|p: int, q: int|
                        0 <= p < s2.len() && 0 <= q < s2.len() && p != q implies s2[p]
                        != s2[q] by {
                        let p1 = if p < ii { p } else { p + 1 };
                        let q1 = if q < ii { q } else { q + 1 };
                        assert(s2[p] == s1[p1]);
                        assert(s2[q] == s1[q1]);
                        assert(s1[p1] != s1[q1]);
                    }
                    assert(s2.no_duplicates());
                    assert(s2.to_set() =~= s1.to_set().remove(other)) by {
                        assert forall|y: u32| s2.contains(y) implies s1.contains(y) && y
                            != other by {
                            let k = choose|k: int| 0 <= k < s2.len() && s2[k] == y;
                            let k1 = if k < ii { k } else { k + 1 };
                            assert(s2[k] == s1[k1]);
                            assert(s1[k1] == y);
                            assert(k1 != ii);
                            assert(s1[k1] != s1[ii]);
                        }
                        assert forall|y: u32| s1.contains(y) && y != other implies s2.contains(
                            y,
                        ) by {
                            let k = choose|k: int| 0 <= k < s1.len() && s1[k] == y;
                            assert(s1[k] != s1[ii] || k == ii);
                            assert(k != ii);
                            if k < ii {
                                assert(s2[k] == y);
                            } else {
                                assert(s2[k - 1] == s1[k]);
                            }
                        }
                    }
                    assert(self@ =~~= NavPointView {
                        connections: old(self)@.connections.remove(other),
                        ..old(self)@
                    });
                }
                return ;
            }
            i = i + 1;
        }
        proof {
            assert(!self.connections@.contains(other));
            assert(self@ =~~= NavPointView {
                connections: old(self)@.connections.remove(other),
                ..old(self)@
            });
        }
    }
}

/// Appending a fresh element keeps a sequence duplicate-free.
proof fn lemma_push_no_dup(s: Seq<u32>, x: u32)
    requires
        s.no_duplicates(),
        !s.contains(x),
    ensures
        s.push(x).no_duplicates(),
{
    let s2 = s.push(x);
    assert forall|p: int, q: int|
        0 <= p < s2.len() && 0 <= q < s2.len() && p != q implies s2[p] != s2[q] by {
        if p < s.len() && q < s.len() {
            assert(s2[p] == s[p] && s2[q] == s[q]);
        } else if p == s.len() {
            assert(s2[p] == x && s2[q] == s[q]);
        } else {
            assert(s2[q] == x && s2[p] == s[p]);
        }
    }
}

/// Linear scan: does `v` hold `x`?
fn vec_contains(v: &Vec<u32>, x: u32) -> (r: bool)
    ensures
        r == v@.contains(x),
{
    let n = v.len();
    let mut i: usize = 0;
    while i < n
        invariant
            n == v.len(),
            0 <= i <= n,
            forall|j: int| 0 <= j < i ==> v@[j] != x,
        decreases n - i,
    {
        if v[i] == x {
            return true;
        }
        i = i + 1;
    }
    false
}

/// Recycles waypoint ids that callers have retired: a first-in, first-out
/// queue of freed ids.
pub struct NavPointIdFreelist(VecDeque<u32>);

impl View for NavPointIdFreelist {
    type V = Seq<u32>;

    closed spec fn view(&self) -> Seq<u32> {
        self.0@
    }
}

impl NavPointIdFreelist {
    pub fn new() -> (r: Self)
        ensures
            r@.len() == 0,
    {
        NavPointIdFreelist(VecDeque::with_capacity(500))
    }

    /// Records that `id` is free for reuse.
    pub fn freed(&mut self, id: u32)
        ensures
            final(self)@ == old(self)@.push(id),
    {
        self.0.push_back(id);
    }

    /// Hands out the oldest recycled id, if any.
    pub fn next(&mut self) -> (r: Option<u32>)
        ensures
            old(self)@.len() == 0 ==> r is None && final(self)@ == old(self)@,
            old(self)@.len() > 0 ==> r == Some(old(self)@[0]) && final(self)@ == old(self)@.skip(1),
    {
        self.0.pop_front()
    }
}

/// Clamp a mathematical integer into `u32`.
pub open spec fn clamp_u32(v: int) -> u32 {
    if v > u32::MAX {
        u32::MAX
    } else if v < 0 {
        0
    } else {
        v as u32
    }
}

/// The cost charged for traveling from `x` to `y` (also used as the
/// remaining-distance estimate): squared distance scaled by 100 and divided
/// by the *destination* node's speed modifier.  The asymmetry is deliberate:
/// entering a fast waypoint is cheap.  Missing nodes cost `u32::MAX`.
pub open spec fn spec_cost(m: Map<u32, NavPointView>, x: u32, y: u32) -> u32 {
    if m.dom().contains(x) && m.dom().contains(y) {
        clamp_u32(spec_dist_sq(m[x].location, m[y].location) * 100 / (m[y].speed_modifier as int))
    } else {
        u32::MAX
    }
}

/// Whether waypoint `id` exists and has occupancy headroom.
pub open spec fn can_occupy_at(m: Map<u32, NavPointView>, id: u32) -> bool {
    m.dom().contains(id) && m[id].current_occupancy < m[id].max_occupancy
}

/// A single legal search step: `y` is a neighbor of `x` and has headroom.
pub open spec fn step_ok(m: Map<u32, NavPointView>, x: u32, y: u32) -> bool {
    &&& m.dom().contains(x)
    &&& m.dom().contains(y)
    &&& m[x].connections.contains(y)
    &&& can_occupy_at(m, y)
}

/// `p` is a path from `a` (exclusive) to `b` (inclusive): every hop follows
/// a connection into a waypoint with headroom.  The empty path connects `a`
/// to itself.
pub open spec fn path_connects(m: Map<u32, NavPointView>, a: u32, b: u32, p: Seq<u32>) -> bool {
    &&& m.dom().contains(a)
    &&& m.dom().contains(b)
    &&& (p.len() == 0 ==> a == b)
    &&& (p.len() > 0 ==> {
        &&& p.last() == b
        &&& step_ok(m, a, p[0])
        &&& forall|i: int| 0 <= i < p.len() - 1 ==> #[trigger] step_ok(m, p[i], p[i + 1])
    })
}

/// The total cost of walking `p` starting from `a`.
pub open spec fn path_cost(m: Map<u32, NavPointView>, a: u32, p: Seq<u32>) -> int
    decreases p.len(),
{
    if p.len() == 0 {
        0
    } else {
        spec_cost(m, a, p[0]) + path_cost(m, p[0], p.skip(1))
    }
}

/// Graph-wide invariant over the mathematical view: every stored id matches
/// its key, scalars are in range, and connectivity is closed and symmetric.
pub open spec fn graph_inv(m: Map<u32, NavPointView>) -> bool {
    &&& forall|id: u32| #[trigger] m.dom().contains(id) ==> m[id].id == id
        && m[id].speed_modifier >= 1 && m[id].current_occupancy <= m[id].max_occupancy
    &&& forall|id: u32, c: u32|
        #![trigger m[id].connections.contains(c)]
        m.dom().contains(id) && m[id].connections.contains(c) ==> m.dom().contains(c)
            && m[c].connections.contains(id)
}

/// The waypoint graph: an ordered map from id to waypoint, plus the highest
/// id ever added (bookkeeping for callers that allocate ids).
#[derive(Debug)]
pub struct NavGraph {
    points: BTreeMap<u32, NavPoint>,
    highest_id: u32,
}

/// The mathematical view of a stored point map.
pub open spec fn view_of(m: Map<u32, NavPoint>) -> Map<u32, NavPointView> {
    Map::new(|k: u32| m.dom().contains(k), |k: u32| m[k]@)
}

impl View for NavGraph {
    type V = Map<u32, NavPointView>;

    closed spec fn view(&self) -> Map<u32, NavPointView> {
        view_of(self.points@)
    }
}

impl Default for NavGraph {
    fn default() -> (r: Self)
        ensures
            r.wf(),
            r@ == Map::<u32, NavPointView>::empty(),
            r.spec_highest_id() == 0,
    {
        NavGraph::new()
    }
}

impl NavGraph {
    /// Well-formedness: the view satisfies [`graph_inv`] and every stored
    /// point is internally well-formed under its own key.
    pub closed spec fn wf(&self) -> bool {
        &&& graph_inv(self@)
        &&& forall|id: u32| #[trigger] self.points@.dom().contains(id) ==> self.points@[id].wf()
            && self.points@[id]@.id == id
    }

    /// `wf` implies the public view-level invariant.
    pub proof fn lemma_wf_inv(&self)
        requires
            self.wf(),
        ensures
            graph_inv(self@),
    {
    }

    /// The highest waypoint id ever added.
    pub closed spec fn spec_highest_id(&self) -> u32 {
        self.highest_id
    }

    pub fn new() -> (r: Self)
        ensures
            r.wf(),
            r@ == Map::<u32, NavPointView>::empty(),
            r.spec_highest_id() == 0,
    {
        let r = NavGraph { points: BTreeMap::new(), highest_id: 0 };
        proof {
            assert(r@ =~= Map::<u32, NavPointView>::empty());
        }
        r
    }

    /// An empty graph.  `capacity` is a pre-sizing hint only; the tree-based
    /// store needs none, so it is accepted for interface compatibility and
    /// has no effect.
    pub fn with_capacity(capacity: usize) -> (r: Self)
        ensures
            r.wf(),
            r@ == Map::<u32, NavPointView>::empty(),
            r.spec_highest_id() == 0,
    {
        let _ = capacity;
        Self::new()
    }

    /// How many waypoints the graph holds.
    pub fn len(&self) -> (r: usize)
        ensures
            r == self@.dom().len(),
    {
        proof {
            assert(self@.dom() =~= self.points@.dom());
        }
        self.points.len()
    }

    pub fn is_empty(&self) -> (r: bool)
        ensures
            r == (self@.dom().len() == 0),
    {
        proof {
            assert(self@.dom() =~= self.points@.dom());
            vstd::std_specs::btree::axiom_btree_map_view_finite_dom(self.points);
            if self.points@.dom().len() == 0 {
                assert(self.points@.dom() =~= Set::<u32>::empty());
            }
        }
        self.points.is_empty()
    }

    /// Whether a waypoint with this id is in the graph.
    #[inline(always)]
    pub fn has_node(&self, id: u32) -> (r: bool)
        ensures
            r == self@.dom().contains(id),
    {
        self.points.contains_key(&id)
    }

    /// Borrows the waypoint with this id, if present.
    pub fn get_nav_point(&self, id: u32) -> (r: Option<&NavPoint>)
        ensures
            match r {
                Some(p) => self@.dom().contains(id) && p@ == self@[id],
                None => !self@.dom().contains(id),
            },
    {
        self.points.get(&id)
    }

    /// Whether the waypoint exists and has headroom; false for missing ids.
    pub fn can_occupy(&self, id: u32) -> (r: bool)
        ensures
            r == can_occupy_at(self@, id),
    {
        match self.points.get(&id) {
            Some(p) => p.can_occupy(),
            None => false,
        }
    }

    /// Tries to add one occupant to the waypoint.  Succeeds (and increments
    /// the counter) exactly when the waypoint exists with headroom; a missing
    /// id or a full waypoint leaves the graph unchanged and reports failure.
    pub fn occupy(&mut self, id: u32) -> (r: bool)
        requires
            old(self).wf(),
        ensures
            final(self).wf(),
            final(self)@.dom() == old(self)@.dom(),
            r == can_occupy_at(old(self)@, id),
            r ==> final(self)@ == old(self)@.insert(id, (NavPointView {
                current_occupancy: (old(self)@[id].current_occupancy + 1) as u32,
                ..old(self)@[id]
            })),
            !r ==> final(self)@ == old(self)@,
            final(self).spec_highest_id() == old(self).spec_highest_id(),
    {
        match self.points.remove(&id) {
            Some(mut p) => {
                let r = p.occupy();
                let ghost pv = p@;
                self.points.insert(id, p);
                proof {
                    assert(self@ =~~= old(self)@.insert(id, pv));
                    if !r {
                        assert(self@ =~~= old(self)@);
                    }
                    assert(self@.dom() =~= old(self)@.dom());
                    lemma_inv_same_connections(old(self), self);
                }
                r
            },
            None => {
                proof {
                    assert(self@ =~~= old(self)@);
                }
                false
            },
        }
    }

    /// Removes one occupant from the waypoint, never going below zero; a
    /// missing id is a silent no-op.
    pub fn unoccupy(&mut self, id: u32)
        requires
            old(self).wf(),
        ensures
            final(self).wf(),
            final(self)@.dom() == old(self)@.dom(),
            old(self)@.dom().contains(id) ==> final(self)@ == old(self)@.insert(id, (NavPointView {
                current_occupancy: if old(self)@[id].current_occupancy > 0 {
                    (old(self)@[id].current_occupancy - 1) as u32
                } else {
                    0
                },
                ..old(self)@[id]
            })),
            !old(self)@.dom().contains(id) ==> final(self)@ == old(self)@,
            final(self).spec_highest_id() == old(self).spec_highest_id(),
    {
        match self.points.remove(&id) {
            Some(mut p) => {
                p.unoccupy();
                let ghost pv = p@;
                self.points.insert(id, p);
                proof {
                    assert(self@ =~~= old(self)@.insert(id, pv));
                    assert(self@.dom() =~= old(self)@.dom());
                    lemma_inv_same_connections(old(self), self);
                }
            },
            None => {
                proof {
                    assert(self@ =~~= old(self)@);
                }
            },
        }
    }
}

/// The view after `connect(a, b)`: when both ids exist, each is inserted
/// into the other's neighbor set; otherwise nothing changes.
pub open spec fn connect_spec(m: Map<u32, NavPointView>, a: u32, b: u32) -> Map<
    u32,
    NavPointView,
> {
    if m.dom().contains(a) && m.dom().contains(b) {
        let m1 = m.insert(a, NavPointView { connections: m[a].connections.insert(b), ..m[a] });
        m1.insert(b, NavPointView { connections: m1[b].connections.insert(a), ..m1[b] })
    } else {
        m
    }
}

/// The view after dropping `id` from every remaining neighbor set.
pub open spec fn scrub_all(m: Map<u32, NavPointView>, id: u32) -> Map<u32, NavPointView> {
    Map::new(
        |k: u32| m.dom().contains(k),
        |k: u32| (NavPointView { connections: m[k].connections.remove(id), ..m[k] }),
    )
}

/// The view after `remove(id)`: the waypoint is gone and no remaining
/// neighbor set mentions it.
pub open spec fn remove_spec(m: Map<u32, NavPointView>, id: u32) -> Map<u32, NavPointView> {
    scrub_all(m.remove(id), id)
}

/// The view after `add_nav_point(pv)`: any previous waypoint under the same
/// id is fully unlinked first; then `pv` is stored with its declared
/// connections restricted to ids actually present (plus a declared
/// self-loop), and each such present neighbor gains the reciprocal
/// back-edge.
pub open spec fn add_point_spec(m: Map<u32, NavPointView>, pv: NavPointView) -> Map<
    u32,
    NavPointView,
> {
    let m1 = if m.dom().contains(pv.id) {
        remove_spec(m, pv.id)
    } else {
        m
    };
    let keep = pv.connections.intersect(m1.dom().insert(pv.id));
    Map::new(
        |k: u32| m1.dom().contains(k) || k == pv.id,
        |k: u32|
            if k == pv.id {
                NavPointView { connections: keep, ..pv }
            } else if pv.connections.contains(k) {
                NavPointView { connections: m1[k].connections.insert(pv.id), ..m1[k] }
            } else {
                m1[k]
            },
    )
}

/// `connect` preserves the graph invariant.
pub proof fn lemma_connect_inv(m: Map<u32, NavPointView>, a: u32, b: u32)
    requires
        graph_inv(m),
    ensures
        graph_inv(connect_spec(m, a, b)),
{
    if m.dom().contains(a) && m.dom().contains(b) {
        let m2 = connect_spec(m, a, b);
        assert forall|id: u32, c: u32|
            #![trigger m2[id].connections.contains(c)]
            m2.dom().contains(id) && m2[id].connections.contains(c) implies m2.dom().contains(c)
            && m2[c].connections.contains(id) by {
            if m[id].connections.contains(c) {
                assert(m[c].connections.contains(id));
            }
        }
    }
}

/// `remove` preserves the graph invariant.
pub proof fn lemma_remove_inv(m: Map<u32, NavPointView>, id: u32)
    requires
        graph_inv(m),
    ensures
        graph_inv(remove_spec(m, id)),
{
    let m2 = remove_spec(m, id);
    assert forall|x: u32, c: u32|
        #![trigger m2[x].connections.contains(c)]
        m2.dom().contains(x) && m2[x].connections.contains(c) implies m2.dom().contains(c)
        && m2[c].connections.contains(x) by {
        assert(m[x].connections.contains(c));
        assert(m[c].connections.contains(x));
    }
}

/// `add_nav_point` preserves the graph invariant, given a well-formed new
/// point.
pub proof fn lemma_add_inv(m: Map<u32, NavPointView>, pv: NavPointView)
    requires
        graph_inv(m),
        pv.speed_modifier >= 1,
        pv.current_occupancy <= pv.max_occupancy,
    ensures
        graph_inv(add_point_spec(m, pv)),
{
    let m1 = if m.dom().contains(pv.id) {
        remove_spec(m, pv.id)
    } else {
        m
    };
    if m.dom().contains(pv.id) {
        lemma_remove_inv(m, pv.id);
    }
    assert(graph_inv(m1));
    assert(!m1.dom().contains(pv.id));
    let m2 = add_point_spec(m, pv);
    let keep = pv.connections.intersect(m1.dom().insert(pv.id));
    assert forall|x: u32, c: u32|
        #![trigger m2[x].connections.contains(c)]
        m2.dom().contains(x) && m2[x].connections.contains(c) implies m2.dom().contains(c)
        && m2[c].connections.contains(x) by {
        if x == pv.id {
            assert(keep.contains(c));
            if c != pv.id {
                assert(m1.dom().contains(c));
                assert(pv.connections.contains(c));
                assert(m2[c].connections.contains(pv.id));
            }
        } else {
            assert(m1.dom().contains(x));
            if m1[x].connections.contains(c) {
                assert(m1.dom().contains(c));
                assert(m1[c].connections.contains(x));
                assert(c != pv.id);
                assert(m2[c].connections.contains(x));
            } else {
                assert(pv.connections.contains(x) && c == pv.id);
                assert(keep.contains(x));
                assert(m2[pv.id].connections.contains(x));
            }
        }
    }
}

impl NavGraph {
    /// Connects two waypoints, making a travelable edge between them.
    /// A silent no-op if either id is absent; idempotent (set semantics).
    pub fn connect_points(&mut self, a: u32, b: u32)
        requires
            old(self).wf(),
        ensures
            final(self).wf(),
            final(self)@ == connect_spec(old(self)@, a, b),
            final(self).spec_highest_id() == old(self).spec_highest_id(),
    {
        if !self.has_node(a) || !self.has_node(b) {
            proof {
                assert(self@ =~~= connect_spec(old(self)@, a, b));
            }
            return ;
        }
        match self.points.remove(&a) {
            Some(mut p) => {
                p.connect_to(b);
                self.points.insert(a, p);
            },
            None => {},
        }
        match self.points.remove(&b) {
            Some(mut p) => {
                p.connect_to(a);
                self.points.insert(b, p);
            },
            None => {},
        }
        proof {
            let m0 = old(self)@;
            assert(self@ =~~= connect_spec(m0, a, b));
            lemma_connect_inv(m0, a, b);
            assert forall|id: u32| #[trigger] self.points@.dom().contains(id) implies self.points@[id].wf()
                && self.points@[id]@.id == id by {
                assert(old(self).points@.dom().contains(id));
            }
        }
    }

    /// Removes the waypoint and, for each former neighbor, the back-edge to
    /// it.  A silent no-op if the id is absent.  Afterwards no waypoint in
    /// the graph lists `id` among its connections.
    #[verifier::loop_isolation(false)]
    pub fn remove_point(&mut self, id: u32)
        requires
            old(self).wf(),
        ensures
            final(self).wf(),
            final(self)@ == remove_spec(old(self)@, id),
            !final(self)@.dom().contains(id),
            forall|n: u32| #[trigger] final(self)@.dom().contains(n)
                ==> !final(self)@[n].connections.contains(id),
            final(self).spec_highest_id() == old(self).spec_highest_id(),
    {
        let ghost m0 = self@;
        match self.points.remove(&id) {
            Some(p) => {
                let ghost mr = self.points@;
                let ghost mv = view_of(mr);
                proof {
                    assert(mv =~~= m0.remove(id));
                }
                let n = p.connections.len();
                let mut j: usize = 0;
                while j < n
                    invariant
                        n == p.connections@.len(),
                        0 <= j <= n,
                        self.highest_id == old(self).highest_id,
                        self.points@.dom() == mr.dom(),
                        forall|k: u32| #[trigger] self.points@.dom().contains(k)
                            ==> self.points@[k].wf() && self.points@[k]@.id == k,
                        forall|k: u32| #[trigger] mr.dom().contains(k) ==> self.points@[k]@ == (
                        if p.connections@.take(j as int).contains(k) {
                            NavPointView { connections: mv[k].connections.remove(id), ..mv[k] }
                        } else {
                            mv[k]
                        }),
                    decreases n - j,
                {
                    let c = p.connections[j];
                    let ghost before = self.points@;
                    match self.points.remove(&c) {
                        Some(mut q) => {
                            q.disconnect_from(id);
                            self.points.insert(c, q);
                            proof {
                                assert(self.points@.dom() =~= before.dom());
                            }
                        },
                        None => {},
                    }
                    proof {
                        assert forall|k: u32| #[trigger] mr.dom().contains(k) implies self.points@[k]@ == (if p.connections@.take(j as int + 1).contains(k) {
                            NavPointView { connections: mv[k].connections.remove(id), ..mv[k] }
                        } else {
                            mv[k]
                        }) by {
                            let t1 = p.connections@.take(j as int + 1);
                            let t0 = p.connections@.take(j as int);
                            assert(t1 == t0.push(c));
                            t0.lemma_push_to_set_commute(c);
                            assert(t1.contains(k) <==> t0.contains(k) || k == c) by {
                                assert(t1.to_set() =~= t0.to_set().insert(c));
                                assert(t1.to_set().contains(k) <==> t1.contains(k));
                            }
                            if k == c && !t0.contains(c) && !mr.dom().contains(c) {
                            }
                            if k == c && mr.dom().contains(c) && t0.contains(c) {
                                // already scrubbed; removing again changes nothing
                                assert(before[c]@.connections =~= mv[c].connections.remove(id));
                                assert(self.points@[c]@.connections =~= mv[c].connections.remove(
                                    id,
                                ));
                            }
                        }
                    }
                    j = j + 1;
                }
                proof {
                    let mend = self@;
                    assert(mend =~~= remove_spec(m0, id)) by {
                        assert forall|k: u32| #[trigger] mr.dom().contains(k) implies self.points@[k]@ =~= (NavPointView {
                            connections: mv[k].connections.remove(id),
                            ..mv[k]
                        }) by {
                            assert(p.connections@.take(n as int) == p.connections@);
                            if !p.connections@.contains(k) {
                                // `k` never pointed at `id`: symmetry
                                assert(!p.connections@.to_set().contains(k));
                                assert(!m0[id].connections.contains(k));
                                if mv[k].connections.contains(id) {
                                    assert(m0[k].connections.contains(id));
                                    assert(m0[id].connections.contains(k));
                                }
                                assert(mv[k].connections.remove(id) =~= mv[k].connections);
                            }
                        }
                    }
                    lemma_remove_inv(m0, id);
                }
            },
            None => {
                proof {
                    assert(self@ =~~= remove_spec(old(self)@, id)) by {
                        assert(self@ =~~= old(self)@);
                        assert forall|k: u32| #[trigger] old(self)@.dom().contains(k) && k
                            != id implies old(self)@[k].connections.remove(id) =~= old(
                            self,
                        )@[k].connections by {
                            if old(self)@[k].connections.contains(id) {
                                assert(old(self)@.dom().contains(id));
                            }
                        }
                    }
                }
            },
        }
    }

    /// Adds a waypoint.  Any previous waypoint under the same id is fully
    /// unlinked first.  For every id already declared in the new point's
    /// neighbor list that exists in the graph, the reciprocal back-edge is
    /// added (repairing symmetry for points declared with pre-populated
    /// neighbor sets); declared neighbors that do not exist are dropped.
    /// The highest-id counter is raised if the new id exceeds it.
    #[verifier::loop_isolation(false)]
    pub fn add_nav_point(&mut self, point: NavPoint)
        requires
            old(self).wf(),
            point.wf(),
        ensures
            final(self).wf(),
            final(self)@ == add_point_spec(old(self)@, point@),
            final(self).spec_highest_id() == (if point@.id > old(self).spec_highest_id() {
                point@.id
            } else {
                old(self).spec_highest_id()
            }),
    {
        let ghost m0 = self@;
        let ghost pv = point@;
        if self.points.contains_key(&point.id) {
            self.remove_point(point.id);
        }
        let ghost m1 = self@;
        proof {
            assert(m1 == (if m0.dom().contains(pv.id) {
                remove_spec(m0, pv.id)
            } else {
                m0
            }));
            assert(!m1.dom().contains(pv.id));
            assert(self.points@.dom() =~= m1.dom());
        }
        let mut point = point;
        let mut kept: Vec<u32> = Vec::new();
        let n = point.connections.len();
        let ghost decl = point.connections@;
        let mut j: usize = 0;
        while j < n
            invariant
                n == decl.len(),
                0 <= j <= n,
                point.connections@ == decl,
                self.highest_id == old(self).highest_id,
                self.points@.dom() == m1.dom(),
                forall|k: u32| #[trigger] self.points@.dom().contains(k) ==> self.points@[k].wf()
                    && self.points@[k]@.id == k,
                kept@.no_duplicates(),
                forall|x: u32| #[trigger] kept@.contains(x) ==> decl.take(j as int).contains(x),
                forall|x: u32| #[trigger] decl.take(j as int).contains(x) ==> (kept@.contains(x)
                    <==> (x == pv.id || m1.dom().contains(x))),
                forall|k: u32| #[trigger] m1.dom().contains(k) ==> self@[k] == (if decl.take(
                    j as int,
                ).contains(k) {
                    NavPointView { connections: m1[k].connections.insert(pv.id), ..m1[k] }
                } else {
                    m1[k]
                }),
            decreases n - j,
        {
            let c = point.connections[j];
            let ghost before = self@;
            let ghost prevk = kept@;
            proof {
                assert(!kept@.contains(c)) by {
                    if kept@.contains(c) {
                        assert(decl.take(j as int).contains(c));
                        let ix = choose|ix: int| 0 <= ix < j && decl.take(j as int)[ix] == c;
                        assert(decl[ix] == c && decl[j as int] == c);
                    }
                }
                prevk.lemma_push_to_set_commute(c);
            }
            if c == point.id {
                kept.push(c);
                proof {
                    lemma_push_no_dup(prevk, c);
                }
            } else {
                match self.points.remove(&c) {
                    Some(mut q) => {
                        q.connect_to(point.id);
                        self.points.insert(c, q);
                        kept.push(c);
                        proof {
                            lemma_push_no_dup(prevk, c);
                            assert(self.points@.dom() =~= m1.dom());
                        }
                    },
                    None => {},
                }
            }
            proof {
                let t1 = decl.take(j as int + 1);
                let t0 = decl.take(j as int);
                assert(t1 == t0.push(c));
                t0.lemma_push_to_set_commute(c);
                assert forall|x: u32| #[trigger] t1.contains(x) <==> t0.contains(x) || x == c by {
                    assert(t1.to_set() =~= t0.to_set().insert(c));
                    assert(t1.to_set().contains(x) <==> t1.contains(x));
                    assert(t0.to_set().contains(x) <==> t0.contains(x));
                }
                assert forall|x: u32| #[trigger] kept@.contains(x) <==> prevk.contains(x) || (
                kept@ != prevk && x == c) by {
                    if kept@ != prevk {
                        assert(kept@ == prevk.push(c));
                        assert(kept@.to_set() =~= prevk.to_set().insert(c));
                        assert(kept@.to_set().contains(x) <==> kept@.contains(x));
                        assert(prevk.to_set().contains(x) <==> prevk.contains(x));
                    }
                }
                assert(!t0.contains(c)) by {
                    if t0.contains(c) {
                        let ix = choose|ix: int| 0 <= ix < j && decl.take(j as int)[ix] == c;
                        assert(decl[ix] == c && decl[j as int] == c);
                    }
                }
                assert forall|k: u32| #[trigger] m1.dom().contains(k) implies self@[k] == (
                if t1.contains(k) {
                    NavPointView { connections: m1[k].connections.insert(pv.id), ..m1[k] }
                } else {
                    m1[k]
                }) by {
                    if k == c {
                        assert(before[c] == m1[c]);
                        assert(self@[c].connections =~= m1[c].connections.insert(pv.id));
                        assert(self@[c] =~= NavPointView {
                            connections: m1[c].connections.insert(pv.id),
                            ..m1[c]
                        });
                    } else {
                        assert(self@[k] == before[k]);
                    }
                }
            }
            j = j + 1;
        }
        proof {
            assert(decl.take(n as int) == decl);
        }
        point.connections = kept;
        if point.id > self.highest_id {
            self.highest_id = point.id;
        }
        let ghost kset = point.connections@.to_set();
        self.points.insert(point.id, point);
        proof {
            let keep = pv.connections.intersect(m1.dom().insert(pv.id));
            assert(kset =~= keep) by {
                assert forall|x: u32| kset.contains(x) implies keep.contains(x) by {
                    assert(kept@.contains(x));
                    assert(decl.take(n as int).contains(x));
                    assert(decl.to_set().contains(x));
                    assert(pv.connections.contains(x));
                    assert(x == pv.id || m1.dom().contains(x));
                }
                assert forall|x: u32| keep.contains(x) implies kset.contains(x) by {
                    assert(pv.connections.contains(x));
                    assert(decl.to_set().contains(x));
                    assert(decl.contains(x));
                    let ix = choose|ix: int| 0 <= ix < decl.len() && decl[ix] == x;
                    assert(decl.take(n as int)[ix] == x);
                    assert(decl.take(n as int).contains(x));
                    assert(kept@.contains(x));
                }
            }
            assert(self@ =~~= add_point_spec(m0, pv)) by {
                assert(self@[pv.id] =~= NavPointView { connections: keep, ..pv });
            }
            lemma_add_inv(m0, pv);
            assert forall|id: u32| #[trigger] self.points@.dom().contains(id) implies self.points@[id].wf()
                && self.points@[id]@.id == id by {
                if id != pv.id {
                    assert(m1.dom().contains(id));
                }
            }
        }
    }
}

/// `a + b` capped at `u32::MAX`.
pub open spec fn sat_add(a: u32, b: u32) -> u32 {
    if a + b > u32::MAX {
        u32::MAX
    } else {
        (a + b) as u32
    }
}

/// The best-known cost to reach `k`; unknown nodes cost `u32::MAX`.
pub open spec fn g_val(gs: Map<u32, u32>, k: u32) -> u32 {
    if gs.dom().contains(k) {
        gs[k]
    } else {
        u32::MAX
    }
}

/// Sum of best-known costs over a fixed key list: the termination measure
/// of the search loop (every score update strictly lowers it).
spec fn g_sum(keys: Seq<u32>, gs: Map<u32, u32>) -> int
    decreases keys.len(),
{
    if keys.len() == 0 {
        0
    } else {
        g_val(gs, keys[0]) + g_sum(keys.skip(1), gs)
    }
}

proof fn lemma_g_sum_nonneg(keys: Seq<u32>, gs: Map<u32, u32>)
    ensures
        g_sum(keys, gs) >= 0,
    decreases keys.len(),
{
    if keys.len() > 0 {
        lemma_g_sum_nonneg(keys.skip(1), gs);
    }
}

/// Lowering one key's score can only lower the sum, and strictly lowers it
/// when the key is listed.
proof fn lemma_g_sum_update(keys: Seq<u32>, gs: Map<u32, u32>, k: u32, v: u32)
    requires
        v < g_val(gs, k),
    ensures
        g_sum(keys, gs.insert(k, v)) <= g_sum(keys, gs),
        keys.contains(k) ==> g_sum(keys, gs.insert(k, v)) < g_sum(keys, gs),
    decreases keys.len(),
{
    if keys.len() > 0 {
        lemma_g_sum_update(keys.skip(1), gs, k, v);
        if keys.contains(k) && keys[0] != k {
            let i = choose|i: int| 0 <= i < keys.len() && keys[i] == k;
            assert(keys.skip(1)[i - 1] == k);
            assert(keys.skip(1).contains(k));
        }
    }
}

/// Timestamp of `x`, zero when unset.
pub open spec fn ts_val(ts: Map<u32, nat>, x: u32) -> nat {
    if ts.dom().contains(x) {
        ts[x]
    } else {
        0
    }
}

/// Scalar measure for walking a predecessor chain: score-major,
/// timestamp-minor.
pub open spec fn walk_meas(gs: Map<u32, u32>, ts: Map<u32, nat>, cnt: nat, x: u32) -> int {
    g_val(gs, x) * cnt + ts_val(ts, x)
}

/// The predecessor edge strictly lowers the walk measure.
proof fn lemma_meas_lt(gs: Map<u32, u32>, ts: Map<u32, nat>, cnt: nat, p: u32, n: u32)
    requires
        g_val(gs, p) <= g_val(gs, n),
        g_val(gs, p) < g_val(gs, n) || ts_val(ts, p) < ts_val(ts, n),
        ts_val(ts, p) < cnt,
        ts_val(ts, n) < cnt,
    ensures
        walk_meas(gs, ts, cnt, p) < walk_meas(gs, ts, cnt, n),
{
    let gp = g_val(gs, p) as int;
    let gn = g_val(gs, n) as int;
    let tp = ts_val(ts, p) as int;
    let tn = ts_val(ts, n) as int;
    if gp < gn {
        assert(gp * cnt + tp < gn * cnt + tn) by (nonlinear_arith)
            requires gp < gn, 0 <= tp < cnt, 0 <= tn;
    } else {
        assert(gp * cnt + tp < gn * cnt + tn) by (nonlinear_arith)
            requires gp == gn, tp < tn, cnt >= 0;
    }
}

proof fn lemma_meas_nonneg(gs: Map<u32, u32>, ts: Map<u32, nat>, cnt: nat, x: u32)
    ensures
        walk_meas(gs, ts, cnt, x) >= 0,
{
    let g = g_val(gs, x) as int;
    assert(g * cnt >= 0) by (nonlinear_arith)
        requires g >= 0, cnt >= 0;
}

/// Path costs are sums of non-negative edge costs.
proof fn lemma_path_cost_nonneg(m: Map<u32, NavPointView>, x: u32, p: Seq<u32>)
    ensures
        path_cost(m, x, p) >= 0,
    decreases p.len(),
{
    if p.len() > 0 {
        lemma_path_cost_nonneg(m, p[0], p.skip(1));
    }
}

/// When the search ends with an exhausted frontier, the set of expanded
/// nodes is closed under affordable steps, so every path from `a` to `b`
/// that stays below the cost cap would have put `b` into that set.
proof fn lemma_no_path_reach(
    m: Map<u32, NavPointView>,
    gs: Map<u32, u32>,
    done: Set<u32>,
    x: u32,
    b: u32,
    p: Seq<u32>,
)
    requires
        forall|d: u32, y: u32|
            #![trigger done.contains(d), m[d].connections.contains(y)]
            done.contains(d) && m.dom().contains(d) && m[d].connections.contains(y)
                && can_occupy_at(m, y) ==> g_val(gs, y) <= sat_add(
                g_val(gs, d),
                spec_cost(m, d, y),
            ),
        forall|y: u32| g_val(gs, y) < u32::MAX ==> #[trigger] done.contains(y),
        done.contains(x),
        m.dom().contains(x),
        path_connects(m, x, b, p),
        g_val(gs, x) + path_cost(m, x, p) < u32::MAX,
    ensures
        done.contains(b),
    decreases p.len(),
{
    if p.len() == 0 {
        assert(x == b);
    } else {
        let y = p[0];
        let rest = p.skip(1);
        assert(step_ok(m, x, y));
        lemma_path_cost_nonneg(m, y, rest);
        assert(path_cost(m, x, p) == spec_cost(m, x, y) + path_cost(m, y, rest));
        assert(g_val(gs, x) + spec_cost(m, x, y) < u32::MAX);
        assert(sat_add(g_val(gs, x), spec_cost(m, x, y)) == g_val(gs, x) + spec_cost(m, x, y));
        assert(g_val(gs, y) <= g_val(gs, x) + spec_cost(m, x, y));
        assert(g_val(gs, y) < u32::MAX);
        assert(done.contains(y));
        assert(path_connects(m, y, b, rest)) by {
            if rest.len() > 0 {
                assert(rest.last() == p.last());
                assert(step_ok(m, p[0], p[1]));
                assert(rest[0] == p[1]);
                assert forall|i: int| 0 <= i < rest.len() - 1 implies #[trigger] step_ok(
                    m,
                    rest[i],
                    rest[i + 1],
                ) by {
                    let j = i + 1;
                    assert(0 <= j < p.len() - 1);
                    assert(step_ok(m, p[j], p[j + 1]));
                    assert(rest[i] == p[j] && rest[i + 1] == p[j + 1]);
                }
            } else {
                assert(p.last() == p[0]);
            }
        }
        lemma_no_path_reach(m, gs, done, y, b, rest);
    }
}

/// Two well-formed-point stores whose views agree on domain and on every
/// connection set satisfy `graph_inv` together.
proof fn lemma_inv_same_connections(g1: &NavGraph, g2: &NavGraph)
    requires
        g1.wf(),
        g2@.dom() == g1@.dom(),
        forall|id: u32| #[trigger] g2@.dom().contains(id) ==> g2@[id].connections
            == g1@[id].connections,
        forall|id: u32| #[trigger] g2.points@.dom().contains(id) ==> g2.points@[id].wf()
            && g2.points@[id]@.id == id,
    ensures
        g2.wf(),
{
    assert forall|id: u32| #[trigger] g2@.dom().contains(id) implies g2@[id].id == id
        && g2@[id].speed_modifier >= 1 && g2@[id].current_occupancy <= g2@[id].max_occupancy by {
        assert(g2.points@.dom().contains(id));
        assert(g2@[id] == g2.points@[id]@);
    }
    assert forall|id: u32, c: u32|
        #![trigger g2@[id].connections.contains(c)]
        g2@.dom().contains(id) && g2@[id].connections.contains(c) implies g2@.dom().contains(c)
        && g2@[c].connections.contains(id) by {
        assert(g1@[id].connections.contains(c));
        assert(g1@.dom().contains(c) && g1@[c].connections.contains(id));
    }
}

/// Connecting the same pair twice produces the same neighbor sets as
/// connecting it once: `connect` is idempotent.
pub proof fn lemma_connect_idempotent(m: Map<u32, NavPointView>, a: u32, b: u32)
    ensures
        connect_spec(connect_spec(m, a, b), a, b) == connect_spec(m, a, b),
{
    let m1 = connect_spec(m, a, b);
    if m.dom().contains(a) && m.dom().contains(b) {
        assert(m1.dom() =~= m.dom());
        assert(connect_spec(m1, a, b) =~~= m1);
    } else {
        assert(connect_spec(m1, a, b) == m1);
    }
}

/// A waypoint without occupancy headroom never appears on a returned path:
/// saturating a waypoint removes it from consideration as a hop while
/// leaving it in the graph.
pub proof fn lemma_path_avoids_full(
    m: Map<u32, NavPointView>,
    a: u32,
    b: u32,
    p: Seq<u32>,
    x: u32,
)
    requires
        path_connects(m, a, b, p),
        !can_occupy_at(m, x),
    ensures
        !p.contains(x),
{
    assert forall|i: int| 0 <= i < p.len() implies p[i] != x by {
        if i == 0 {
            assert(step_ok(m, a, p[0]));
        } else {
            let j = i - 1;
            assert(0 <= j < p.len() - 1);
            assert(step_ok(m, p[j], p[j + 1]));
        }
    }
    if p.contains(x) {
        let i = choose|i: int| 0 <= i < p.len() && p[i] == x;
        assert(p[i] != x);
    }
}

/// The neighbor set that a straight chain assigns to position `i`.
pub open spec fn chain_neighbors(ids: Seq<u32>, i: int) -> Set<u32> {
    if ids.len() <= 1 {
        Set::empty()
    } else if i == 0 {
        Set::empty().insert(ids[1])
    } else if i == ids.len() - 1 {
        Set::empty().insert(ids[i - 1])
    } else {
        Set::empty().insert(ids[i - 1]).insert(ids[i + 1])
    }
}

/// `m` is a straight chain over the distinct waypoints `ids`: each is
/// connected exactly to its neighbors in the list, and every one has
/// occupancy headroom.
pub open spec fn is_chain(m: Map<u32, NavPointView>, ids: Seq<u32>) -> bool {
    &&& ids.len() >= 1
    &&& ids.no_duplicates()
    &&& m.dom() == ids.to_set()
    &&& forall|i: int| 0 <= i < ids.len() ==> can_occupy_at(m, #[trigger] ids[i])
    &&& forall|i: int| 0 <= i < ids.len() ==> m[#[trigger] ids[i]].connections == chain_neighbors(
        ids,
        i,
    )
}

/// On a chain, the hop list from the first waypoint to the last exists.
pub proof fn lemma_chain_has_path(m: Map<u32, NavPointView>, ids: Seq<u32>)
    requires
        is_chain(m, ids),
    ensures
        path_connects(m, ids[0], ids.last(), ids.skip(1)),
{
    let p = ids.skip(1);
    assert(ids.to_set().contains(ids[0]));
    assert(ids.to_set().contains(ids.last()));
    if p.len() > 0 {
        assert(p.last() == ids.last());
        assert(step_ok(m, ids[0], p[0])) by {
            assert(p[0] == ids[1]);
            assert(m[ids[0]].connections == chain_neighbors(ids, 0));
            assert(chain_neighbors(ids, 0).contains(ids[1]));
            assert(can_occupy_at(m, ids[1]));
        }
        assert forall|i: int| 0 <= i < p.len() - 1 implies #[trigger] step_ok(m, p[i], p[i + 1]) by {
            let j = i + 1;
            assert(p[i] == ids[j] && p[i + 1] == ids[j + 1]);
            assert(m[ids[j]].connections == chain_neighbors(ids, j));
            assert(chain_neighbors(ids, j).contains(ids[j + 1]));
            assert(can_occupy_at(m, ids[j + 1]));
        }
    }
}

/// On a chain, every simple path from the first waypoint to the last walks
/// the chain: its `j`-th hop is the chain's `j+1`-st waypoint.
proof fn lemma_chain_path_index(m: Map<u32, NavPointView>, ids: Seq<u32>, p: Seq<u32>, j: int)
    requires
        is_chain(m, ids),
        path_connects(m, ids[0], ids.last(), p),
        p.no_duplicates(),
        !p.contains(ids[0]),
        p.len() > 0,
        0 <= j < p.len(),
    ensures
        j + 2 <= ids.len(),
        p[j] == ids[j + 1],
    decreases j,
{
    assert(ids.len() >= 2) by {
        if ids.len() == 1 {
            assert(ids.last() == ids[0]);
            assert(p[p.len() - 1] == ids[0]);
            assert(p.contains(ids[0]));
        }
    }
    if j == 0 {
        assert(step_ok(m, ids[0], p[0]));
        assert(m[ids[0]].connections == chain_neighbors(ids, 0));
        assert(chain_neighbors(ids, 0).contains(p[0]));
        assert(p[0] == ids[1]);
    } else {
        lemma_chain_path_index(m, ids, p, j - 1);
        assert(p[j - 1] == ids[j]);
        let i = j - 1;
        assert(0 <= i < p.len() - 1);
        assert(step_ok(m, p[i], p[i + 1]));
        assert(m[ids[j]].connections == chain_neighbors(ids, j));
        assert(chain_neighbors(ids, j).contains(p[j]));
        if p[j] == ids[j - 1] {
            if j == 1 {
                assert(p[1] == ids[0]);
                assert(p.contains(ids[0]));
                assert(false);
            } else {
                lemma_chain_path_index(m, ids, p, j - 2);
                assert(p[j - 2] == ids[j - 1]);
                assert(p[j - 2] == p[j]);
                assert(false);
            }
        }
        if j == ids.len() - 1 {
            assert(p[j] == ids[j - 1]);
            assert(false);
        }
        assert(p[j] == ids[j + 1]);
    }
}

/// On a straight chain, the only simple path from the first waypoint to the
/// last (that does not revisit the first) is the rest of the chain, in
/// order.  Together with `find_path`'s contract this pins the search result
/// on a chain to exactly those waypoints.
pub proof fn lemma_chain_path_unique(m: Map<u32, NavPointView>, ids: Seq<u32>, p: Seq<u32>)
    requires
        is_chain(m, ids),
        path_connects(m, ids[0], ids.last(), p),
        p.no_duplicates(),
        !p.contains(ids[0]),
    ensures
        p == ids.skip(1),
{
    if ids.len() == 1 {
        if p.len() > 0 {
            assert(p.last() == ids[0]);
            assert(p.contains(ids[0]));
        }
        assert(p =~= ids.skip(1));
    } else {
        if p.len() == 0 {
            assert(ids[0] == ids.last());
            assert(false);
        }
        assert forall|j: int| 0 <= j < p.len() implies p[j] == ids[j + 1] && j + 2 <= ids.len() by {
            lemma_chain_path_index(m, ids, p, j);
        }
        assert(p[p.len() - 1] == ids[p.len() as int]);
        assert(p.last() == ids[ids.len() - 1]);
        assert(p.len() == ids.len() - 1);
        assert(p =~= ids.skip(1));
    }
}

/// A frontier entry: a node id and its priority `f = g + h`.
#[derive(Clone, Copy, PartialEq, Eq, Structural)]
struct PathNode {
    id: u32,
    f: u32,
}

/// Removes and returns a minimum-`f` entry, the earliest pushed among ties.
#[verifier::loop_isolation(false)]
fn pop_min(v: &mut Vec<PathNode>) -> (r: PathNode)
    requires
        old(v)@.len() > 0,
    ensures
        exists|i: int|
            0 <= i < old(v)@.len() && r == old(v)@[i] && final(v)@ == old(v)@.remove(i),
        forall|j: int| 0 <= j < old(v)@.len() ==> r.f <= old(v)@[j].f,
{
    let mut best: usize = 0;
    let mut k: usize = 1;
    while k < v.len()
        invariant
            0 <= best < k <= v@.len(),
            forall|j: int| 0 <= j < k ==> v@[best as int].f <= v@[j].f,
        decreases v@.len() - k,
    {
        if v[k].f < v[best].f {
            best = k;
        }
        k = k + 1;
    }
    let r = v.remove(best);
    proof {
        assert(r == old(v)@[best as int] && v@ == old(v)@.remove(best as int));
    }
    r
}

/// Frontier bookkeeping: entries are distinct known nodes, the membership
/// set mirrors them exactly, and every non-start entry has a predecessor.
spec fn inv_frontier(
    m: Map<u32, NavPointView>,
    fr: Seq<PathNode>,
    si: Set<u32>,
    cf: Map<u32, u32>,
    gs: Map<u32, u32>,
    a: u32,
) -> bool {
    &&& forall|i: int| 0 <= i < fr.len() ==> m.dom().contains(#[trigger] fr[i].id)
    &&& forall|i: int| 0 <= i < fr.len() ==> gs.dom().contains(#[trigger] fr[i].id)
    &&& forall|i: int, j: int|
        #![trigger fr[i].id, fr[j].id]
        0 <= i < j < fr.len() ==> fr[i].id != fr[j].id
    &&& forall|i: int| 0 <= i < fr.len() ==> si.contains(#[trigger] fr[i].id)
    &&& forall|y: u32| #[trigger] si.contains(y) ==> exists|i: int|
        0 <= i < fr.len() && fr[i].id == y
    &&& forall|i: int| 0 <= i < fr.len() ==> (#[trigger] fr[i].id == a || cf.dom().contains(
        fr[i].id,
    ))
}

/// Score bookkeeping: the start is known at cost zero and scores only
/// mention known nodes.
spec fn inv_scores(m: Map<u32, NavPointView>, gs: Map<u32, u32>, a: u32) -> bool {
    &&& gs.dom().contains(a)
    &&& gs[a] == 0
    &&& forall|k: u32| #[trigger] gs.dom().contains(k) ==> m.dom().contains(k)
}

/// Predecessor bookkeeping: every recorded edge is a legal search step whose
/// saturated cost is accounted for in the child's score, and the chain
/// strictly descends by score or, at equal score, by timestamp.
spec fn inv_cf(
    m: Map<u32, NavPointView>,
    cf: Map<u32, u32>,
    gs: Map<u32, u32>,
    ts: Map<u32, nat>,
    counter: nat,
    a: u32,
) -> bool {
    &&& forall|n: u32| #[trigger] cf.dom().contains(n) ==> {
        &&& n != a
        &&& gs.dom().contains(n)
        &&& ts.dom().contains(n)
        &&& (cf[n] == a || cf.dom().contains(cf[n]))
        &&& ts.dom().contains(cf[n])
        &&& step_ok(m, cf[n], n)
        &&& sat_add(g_val(gs, cf[n]), spec_cost(m, cf[n], n)) <= g_val(gs, n)
        &&& (g_val(gs, cf[n]) < g_val(gs, n) || ts[cf[n]] < ts[n])
    }
    &&& ts.dom().contains(a)
    &&& ts[a] == 0
    &&& forall|x: u32| #[trigger] ts.dom().contains(x) ==> ts[x] < counter
    &&& counter >= 1
}

/// Reach bookkeeping: expanded nodes are known and scored, the goal is not
/// among them, and every affordable node is expanded or pending.
spec fn inv_reach(
    m: Map<u32, NavPointView>,
    gs: Map<u32, u32>,
    si: Set<u32>,
    done: Set<u32>,
    a: u32,
    b: u32,
) -> bool {
    &&& !done.contains(b)
    &&& (done.contains(a) || si.contains(a))
    &&& forall|x: u32| #[trigger] done.contains(x) ==> m.dom().contains(x) && gs.dom().contains(x)
    &&& forall|y: u32| #[trigger] gs.dom().contains(y) && gs[y] < u32::MAX ==> done.contains(y)
        || si.contains(y)
}

/// One node's expansion is settled: either it is pending again, or each of
/// its passable neighbors' scores is at most its own plus the edge cost.
spec fn closed_at(
    m: Map<u32, NavPointView>,
    gs: Map<u32, u32>,
    si: Set<u32>,
    x: u32,
    ns: Set<u32>,
) -> bool {
    si.contains(x) || forall|y: u32| #[trigger] ns.contains(y) && can_occupy_at(m, y) ==> g_val(
        gs,
        y,
    ) <= sat_add(g_val(gs, x), spec_cost(m, x, y))
}

impl NavGraph {
    /// Heuristic and incremental edge cost in one: the cost of stepping
    /// from `x` into `y`, per [`spec_cost`].
    fn h_func(&self, x: u32, y: u32) -> (r: u32)
        requires
            self.wf(),
        ensures
            r == spec_cost(self@, x, y),
    {
        match (self.points.get(&x), self.points.get(&y)) {
            (Some(px), Some(py)) => {
                let lx = px.location();
                let ly = py.location();
                let ds: u128 = lx.distance_squared(ly);
                let sm = py.speed_modifier();
                proof {
                    assert(self@[y].speed_modifier >= 1);
                    lemma_square_bound(lx.x - ly.x);
                    lemma_square_bound(lx.y - ly.y);
                    lemma_square_bound(lx.z - ly.z);
                }
                let q: u128 = ds * 100 / (sm as u128);
                if q > 0xffff_ffff {
                    u32::MAX
                } else {
                    q as u32
                }
            },
            _ => u32::MAX,
        }
    }

    /// Occupancy-aware A* from `a` to `b`.
    ///
    /// Returns the hops from `a` (exclusive) to `b` (inclusive), every hop
    /// entering a connected waypoint that had occupancy headroom when the
    /// search ran, or `None` when no such path exists — in particular when
    /// either endpoint is missing.  The returned path repeats no waypoint
    /// and never revisits `a`; `find_path(a, a)` returns an empty path.
    /// The `None` answer is complete up to the cost cap: it is only given
    /// when every candidate path would cost at least `u32::MAX`.
    #[verifier::loop_isolation(false)]
    #[verifier::rlimit(60)]
    pub fn find_path(&self, a: u32, b: u32) -> (r: Option<Vec<u32>>)
        requires
            self.wf(),
        ensures
            match r {
                Some(p) => {
                    &&& path_connects(self@, a, b, p@)
                    &&& p@.no_duplicates()
                    &&& !p@.contains(a)
                    &&& (a == b ==> p@.len() == 0)
                },
                None => forall|p: Seq<u32>|
                    #[trigger] path_connects(self@, a, b, p) ==> path_cost(self@, a, p)
                        >= u32::MAX,
            },
            self@.dom().contains(a) && a == b ==> r is Some,
    {
        let ghost m = self@;
        if !self.has_node(a) || !self.has_node(b) {
            return None;
        }
        if a == b {
            let empty: Vec<u32> = Vec::new();
            return Some(empty);
        }
        let mut search_ids: BTreeSet<u32> = BTreeSet::new();
        let mut open_set: Vec<PathNode> = Vec::new();
        let mut came_from: BTreeMap<u32, u32> = BTreeMap::new();
        let mut g_score: BTreeMap<u32, u32> = BTreeMap::new();

        let start_h = self.h_func(a, b);
        g_score.insert(a, 0);
        search_ids.insert(a);
        open_set.push(PathNode { id: a, f: start_h });

        let ghost keys = m.dom().to_seq();
        let ghost mut done: Set<u32> = Set::empty();
        let ghost mut ts: Map<u32, nat> = Map::<u32, nat>::empty().insert(a, 0);
        let ghost mut counter: nat = 1;
        proof {
            vstd::std_specs::btree::axiom_btree_map_view_finite_dom(self.points);
            assert(m.dom() =~= self.points@.dom());
            m.dom().lemma_to_seq_to_set_id();
            assert(open_set@.len() == 1 && open_set@[0] == (PathNode { id: a, f: start_h }));
            assert(inv_frontier(m, open_set@, search_ids@, came_from@, g_score@, a)) by {
                assert forall|y: u32| #[trigger] search_ids@.contains(y) implies exists|i: int|
                    0 <= i < open_set@.len() && open_set@[i].id == y by {
                    assert(y == a);
                    assert(open_set@[0].id == y);
                }
            }
        }
        while open_set.len() != 0
            invariant
                m.dom().contains(a),
                m.dom().contains(b),
                a != b,
                keys.to_set() == m.dom(),
                inv_frontier(m, open_set@, search_ids@, came_from@, g_score@, a),
                inv_scores(m, g_score@, a),
                inv_cf(m, came_from@, g_score@, ts, counter, a),
                inv_reach(m, g_score@, search_ids@, done, a, b),
                forall|x: u32| #[trigger] done.contains(x) ==> closed_at(
                    m,
                    g_score@,
                    search_ids@,
                    x,
                    m[x].connections,
                ),
            decreases g_sum(keys, g_score@) + open_set@.len(),
        {
            let ghost fr0 = open_set@;
            let ghost gs0 = g_score@;
            let current = pop_min(&mut open_set);
            let ghost ipop = choose|i: int|
                0 <= i < fr0.len() && current == fr0[i] && open_set@ == fr0.remove(i);
            proof {
                fr0.remove_ensures(ipop);
            }
            if current.id == b {
                proof {
                    assert(came_from@.dom().contains(b));
                }
                let ghost gs = g_score@;
                let ghost cf = came_from@;
                let mut total_path: Vec<u32> = Vec::new();
                let mut prev: u32 = current.id;
                while prev != a
                    invariant
                        prev == a || cf.dom().contains(prev),
                        total_path@.len() == 0 ==> prev == b,
                        total_path@.len() > 0 ==> total_path@.last() == b && step_ok(
                            m,
                            prev,
                            total_path@[0],
                        ),
                        forall|i: int| 0 <= i < total_path@.len() - 1 ==> #[trigger] step_ok(
                            m,
                            total_path@[i],
                            total_path@[i + 1],
                        ),
                        forall|i: int| 0 <= i < total_path@.len() ==> #[trigger] total_path@[i]
                            != a,
                        forall|i: int, j: int|
                            #![trigger total_path@[i], total_path@[j]]
                            0 <= i < j < total_path@.len() ==> walk_meas(
                                gs,
                                ts,
                                counter,
                                total_path@[i],
                            ) < walk_meas(gs, ts, counter, total_path@[j]),
                        total_path@.len() > 0 ==> walk_meas(gs, ts, counter, prev) < walk_meas(
                            gs,
                            ts,
                            counter,
                            total_path@[0],
                        ),
                    decreases walk_meas(gs, ts, counter, prev),
                {
                    let ghost tp0 = total_path@;
                    total_path.insert(0, prev);
                    let next: u32 = *came_from.get(&prev).unwrap();
                    proof {
                        assert(cf.dom().contains(prev));
                        assert(next == cf[prev]);
                        assert(g_val(gs, next) <= g_val(gs, prev)) by {
                            assert(sat_add(g_val(gs, next), spec_cost(m, next, prev)) <= g_val(
                                gs,
                                prev,
                            ));
                        }
                        lemma_meas_lt(gs, ts, counter, next, prev);
                        lemma_meas_nonneg(gs, ts, counter, next);
                        assert(total_path@ == tp0.insert(0, prev));
                        assert(total_path@[0] == prev);
                        assert forall|i: int| 0 <= i < tp0.len() implies total_path@[i + 1]
                            == tp0[i] by {}
                    }
                    prev = next;
                }
                proof {
                    assert(total_path@.len() > 0);
                    assert(path_connects(m, a, b, total_path@));
                    assert(total_path@.no_duplicates()) by {
                        assert forall|i: int, j: int|
                            0 <= i < total_path@.len() && 0 <= j < total_path@.len() && i
                                != j implies total_path@[i] != total_path@[j] by {
                            if i < j {
                                assert(walk_meas(gs, ts, counter, total_path@[i]) < walk_meas(
                                    gs,
                                    ts,
                                    counter,
                                    total_path@[j],
                                ));
                            } else {
                                assert(walk_meas(gs, ts, counter, total_path@[j]) < walk_meas(
                                    gs,
                                    ts,
                                    counter,
                                    total_path@[i],
                                ));
                            }
                        }
                    }
                    assert(!total_path@.contains(a)) by {
                        if total_path@.contains(a) {
                            let i = choose|i: int|
                                0 <= i < total_path@.len() && total_path@[i] == a;
                            assert(total_path@[i] != a);
                        }
                    }
                }
                return Some(total_path);
            }
            search_ids.remove(&current.id);
            let ghost si1 = search_ids@;
            proof {
                done = done.insert(current.id);
                // the popped entry was the only one for this id
                assert forall|i: int| 0 <= i < open_set@.len() implies si1.contains(
                    #[trigger] open_set@[i].id,
                ) && open_set@[i].id != current.id by {
                    if i < ipop {
                        assert(open_set@[i] == fr0[i]);
                        assert(fr0[i].id != fr0[ipop].id);
                    } else {
                        assert(open_set@[i] == fr0[i + 1]);
                        assert(fr0[i + 1].id != fr0[ipop].id);
                    }
                }
                assert forall|y: u32| #[trigger] si1.contains(y) implies exists|i: int|
                    0 <= i < open_set@.len() && open_set@[i].id == y by {
                    let i0 = choose|i0: int| 0 <= i0 < fr0.len() && fr0[i0].id == y;
                    assert(y != current.id);
                    assert(i0 != ipop);
                    if i0 < ipop {
                        assert(open_set@[i0].id == y);
                    } else {
                        assert(open_set@[i0 - 1] == fr0[i0]);
                    }
                }
                assert(inv_frontier(m, open_set@, si1, came_from@, g_score@, a));
                assert(inv_reach(m, g_score@, si1, done, a, b));
            }
            let cur_point = self.points.get(&current.id).unwrap();
            let gcur: u32 = *g_score.get(&current.id).unwrap();
            let ghost conns = cur_point.connections@;
            proof {
                assert(cur_point@ == m[current.id]);
                assert(conns.to_set() == m[current.id].connections);
                assert(current.id == a || came_from@.dom().contains(current.id));
            }
            let ghost sbound = g_sum(keys, g_score@) + open_set@.len();
            let conns_len = cur_point.connections.len();
            let mut k: usize = 0;
            while k < conns_len
                invariant
                    conns_len == conns.len(),
                    0 <= k <= conns_len,
                    inv_frontier(m, open_set@, search_ids@, came_from@, g_score@, a),
                    inv_scores(m, g_score@, a),
                    inv_cf(m, came_from@, g_score@, ts, counter, a),
                    inv_reach(m, g_score@, search_ids@, done, a, b),
                    forall|x: u32| #[trigger] done.contains(x) && x != current.id ==> closed_at(
                        m,
                        g_score@,
                        search_ids@,
                        x,
                        m[x].connections,
                    ),
                    closed_at(m, g_score@, search_ids@, current.id, conns.take(k as int).to_set()),
                    g_val(g_score@, current.id) == gcur,
                    current.id == a || came_from@.dom().contains(current.id),
                    g_sum(keys, g_score@) + open_set@.len() <= sbound,
                decreases conns_len - k,
            {
                let y = cur_point.connections[k];
                let ghost gs1 = g_score@;
                let ghost si2 = search_ids@;
                let ghost fr2 = open_set@;
                let ghost cf2 = came_from@;
                let ghost ts2 = ts;
                let ghost counter2 = counter;
                proof {
                    assert(conns.to_set().contains(y));
                    assert(m[current.id].connections.contains(y));
                    assert(m.dom().contains(y));
                    assert(keys.to_set().contains(y));
                    assert(keys.contains(y));
                }
                let ypoint = self.points.get(&y).unwrap();
                if ypoint.can_occupy() {
                    let cost = self.h_func(current.id, y);
                    let tentative: u32 = if gcur > u32::MAX - cost {
                        u32::MAX
                    } else {
                        gcur + cost
                    };
                    proof {
                        assert(tentative == sat_add(gcur, spec_cost(m, current.id, y)));
                    }
                    let gy: u32 = match g_score.get(&y) {
                        Some(v) => *v,
                        None => u32::MAX,
                    };
                    proof {
                        assert(gy == g_val(gs1, y));
                    }
                    if tentative < gy {
                        proof {
                            assert(y != a) by {
                                if y == a {
                                    assert(gy == 0);
                                }
                            }
                            assert(y != current.id) by {
                                if y == current.id {
                                    assert(gy == gcur);
                                    assert(tentative >= gcur);
                                }
                            }
                        }
                        came_from.insert(y, current.id);
                        g_score.insert(y, tentative);
                        proof {
                            ts = ts.insert(y, counter);
                            counter = counter + 1;
                            lemma_g_sum_update(keys, gs1, y, tentative);
                        }
                        let pushed: bool = !search_ids.contains(&y);
                        if pushed {
                            search_ids.insert(y);
                            let h2 = self.h_func(y, b);
                            let fy: u32 = if tentative > u32::MAX - h2 {
                                u32::MAX
                            } else {
                                tentative + h2
                            };
                            open_set.push(PathNode { id: y, f: fy });
                        }
                        proof {
                            let gs3 = g_score@;
                            let cf3 = came_from@;
                            // frontier invariants
                            assert forall|i: int| 0 <= i < open_set@.len() implies m.dom().contains(
                                #[trigger] open_set@[i].id,
                            ) && gs3.dom().contains(open_set@[i].id) && search_ids@.contains(
                                open_set@[i].id,
                            ) && (open_set@[i].id == a || cf3.dom().contains(open_set@[i].id)) by {
                                if i < fr2.len() {
                                    assert(open_set@[i] == fr2[i]);
                                } else {
                                    assert(open_set@[i].id == y);
                                }
                            }
                            assert forall|i: int, j: int|
                                #![trigger open_set@[i].id, open_set@[j].id]
                                0 <= i < j < open_set@.len() implies open_set@[i].id
                                != open_set@[j].id by {
                                if j < fr2.len() {
                                } else if pushed {
                                    assert(open_set@[j].id == y);
                                    assert(open_set@[i] == fr2[i]);
                                    if fr2[i].id == y {
                                        assert(si2.contains(y));
                                    }
                                }
                            }
                            assert forall|z: u32| #[trigger] search_ids@.contains(z) implies exists|
                                i: int,
                            | 0 <= i < open_set@.len() && open_set@[i].id == z by {
                                if z == y && pushed {
                                    assert(open_set@[open_set@.len() - 1].id == y);
                                } else {
                                    assert(si2.contains(z));
                                    let i0 = choose|i0: int|
                                        0 <= i0 < fr2.len() && fr2[i0].id == z;
                                    assert(open_set@[i0].id == z);
                                }
                            }
                            assert(inv_frontier(m, open_set@, search_ids@, cf3, gs3, a));
                            // cf invariants
                            assert forall|n: u32| #[trigger] cf3.dom().contains(n) implies {
                                &&& n != a
                                &&& gs3.dom().contains(n)
                                &&& ts.dom().contains(n)
                                &&& (cf3[n] == a || cf3.dom().contains(cf3[n]))
                                &&& ts.dom().contains(cf3[n])
                                &&& step_ok(m, cf3[n], n)
                                &&& sat_add(g_val(gs3, cf3[n]), spec_cost(m, cf3[n], n)) <= g_val(
                                    gs3,
                                    n,
                                )
                                &&& (g_val(gs3, cf3[n]) < g_val(gs3, n) || ts[cf3[n]] < ts[n])
                            } by {
                                if n == y {
                                    assert(cf3[y] == current.id);
                                    assert(step_ok(m, current.id, y));
                                    assert(g_val(gs3, current.id) == gcur);
                                    assert(g_val(gs3, y) == tentative);
                                    assert(ts.dom().contains(current.id));
                                    assert(ts[current.id] < counter2);
                                    assert(ts[y] == counter2);
                                } else {
                                    assert(cf2.dom().contains(n));
                                    if cf2[n] == y {
                                        assert(sat_add(
                                            g_val(gs1, y),
                                            spec_cost(m, y, n),
                                        ) <= g_val(gs1, n));
                                        assert(g_val(gs1, y) <= g_val(gs1, n));
                                        assert(g_val(gs3, y) == tentative);
                                        assert(g_val(gs3, n) == g_val(gs1, n));
                                        assert(tentative < g_val(gs1, y));
                                        assert(g_val(gs3, y) < g_val(gs3, n));
                                        assert(sat_add(g_val(gs3, y), spec_cost(m, y, n)) <= sat_add(
                                            g_val(gs1, y),
                                            spec_cost(m, y, n),
                                        ));
                                    } else {
                                        assert(g_val(gs3, cf2[n]) == g_val(gs1, cf2[n]));
                                        assert(g_val(gs3, n) == g_val(gs1, n));
                                        assert(ts[n] == ts2[n] && ts[cf2[n]] == ts2[cf2[n]]);
                                    }
                                }
                            }
                            assert(inv_cf(m, cf3, gs3, ts, counter, a));
                            // reach invariants
                            assert forall|z: u32| #[trigger] gs3.dom().contains(z) && gs3[z]
                                < u32::MAX implies done.contains(z) || search_ids@.contains(z) by {
                                if z != y {
                                    assert(gs1.dom().contains(z) && gs1[z] < u32::MAX);
                                }
                            }
                            assert(inv_reach(m, gs3, search_ids@, done, a, b));
                            // closedness of other expanded nodes
                            assert forall|x: u32| #[trigger] done.contains(x) && x
                                != current.id implies closed_at(
                                m,
                                gs3,
                                search_ids@,
                                x,
                                m[x].connections,
                            ) by {
                                if x == y {
                                    assert(search_ids@.contains(y));
                                } else if !si2.contains(x) {
                                    assert forall|z: u32| #[trigger] m[x].connections.contains(z)
                                        && can_occupy_at(m, z) implies g_val(gs3, z) <= sat_add(
                                        g_val(gs3, x),
                                        spec_cost(m, x, z),
                                    ) by {
                                        assert(g_val(gs1, z) <= sat_add(
                                            g_val(gs1, x),
                                            spec_cost(m, x, z),
                                        ));
                                        assert(g_val(gs3, x) == g_val(gs1, x));
                                        if z == y {
                                            assert(g_val(gs3, y) <= g_val(gs1, y));
                                        }
                                    }
                                }
                            }
                            // partial closedness of the current node
                            assert(closed_at(
                                m,
                                gs3,
                                search_ids@,
                                current.id,
                                conns.take(k as int + 1).to_set(),
                            )) by {
                                if !search_ids@.contains(current.id) {
                                    let t1 = conns.take(k as int + 1);
                                    let t0 = conns.take(k as int);
                                    assert(t1 == t0.push(y));
                                    t0.lemma_push_to_set_commute(y);
                                    assert forall|z: u32| #[trigger] t1.to_set().contains(z)
                                        && can_occupy_at(m, z) implies g_val(gs3, z) <= sat_add(
                                        g_val(gs3, current.id),
                                        spec_cost(m, current.id, z),
                                    ) by {
                                        assert(g_val(gs3, current.id) == gcur);
                                        if z == y {
                                            assert(g_val(gs3, y) == tentative);
                                        } else {
                                            assert(t0.to_set().contains(z));
                                            assert(!si2.contains(current.id));
                                            assert(g_val(gs1, z) <= sat_add(
                                                gcur,
                                                spec_cost(m, current.id, z),
                                            ));
                                            assert(g_val(gs3, z) == g_val(gs1, z));
                                        }
                                    }
                                }
                            }
                            // measure
                            assert(g_sum(keys, gs3) + open_set@.len() <= sbound);
                        }
                    } else {
                        proof {
                            let t1 = conns.take(k as int + 1);
                            let t0 = conns.take(k as int);
                            assert(t1 == t0.push(y));
                            t0.lemma_push_to_set_commute(y);
                            assert(closed_at(
                                m,
                                g_score@,
                                search_ids@,
                                current.id,
                                t1.to_set(),
                            )) by {
                                if !search_ids@.contains(current.id) {
                                    assert forall|z: u32| #[trigger] t1.to_set().contains(z)
                                        && can_occupy_at(m, z) implies g_val(g_score@, z)
                                        <= sat_add(
                                        g_val(g_score@, current.id),
                                        spec_cost(m, current.id, z),
                                    ) by {
                                        if z == y {
                                            assert(gy <= tentative);
                                        } else {
                                            assert(t0.to_set().contains(z));
                                        }
                                    }
                                }
                            }
                        }
                    }
                } else {
                    proof {
                        let t1 = conns.take(k as int + 1);
                        let t0 = conns.take(k as int);
                        assert(t1 == t0.push(y));
                        t0.lemma_push_to_set_commute(y);
                        assert(!can_occupy_at(m, y)) by {
                            assert(ypoint@ == m[y]);
                        }
                        assert(closed_at(m, g_score@, search_ids@, current.id, t1.to_set()))
                            by {
                            if !search_ids@.contains(current.id) {
                                assert forall|z: u32| #[trigger] t1.to_set().contains(z)
                                    && can_occupy_at(m, z) implies g_val(g_score@, z) <= sat_add(
                                    g_val(g_score@, current.id),
                                    spec_cost(m, current.id, z),
                                ) by {
                                    assert(z != y);
                                    assert(t0.to_set().contains(z));
                                }
                            }
                        }
                    }
                }
                k = k + 1;
            }
            proof {
                assert(conns.take(conns_len as int) == conns);
                assert(closed_at(m, g_score@, search_ids@, current.id, m[current.id].connections));
                assert forall|x: u32| #[trigger] done.contains(x) implies closed_at(
                    m,
                    g_score@,
                    search_ids@,
                    x,
                    m[x].connections,
                ) by {}
                lemma_g_sum_nonneg(keys, g_score@);
            }
        }
        proof {
            assert forall|p: Seq<u32>| #[trigger] path_connects(m, a, b, p) implies path_cost(
                m,
                a,
                p,
            ) >= u32::MAX by {
                if path_cost(m, a, p) < u32::MAX {
                    assert(search_ids@ =~= Set::<u32>::empty()) by {
                        assert forall|z: u32| !(#[trigger] search_ids@.contains(z)) by {
                            if search_ids@.contains(z) {
                                let i = choose|i: int|
                                    0 <= i < open_set@.len() && open_set@[i].id == z;
                            }
                        }
                    }
                    assert(done.contains(a));
                    lemma_path_cost_nonneg(m, a, p);
                    assert(g_val(g_score@, a) == 0);
                    assert forall|d: u32, y: u32|
                        #![trigger done.contains(d), m[d].connections.contains(y)]
                        done.contains(d) && m.dom().contains(d) && m[d].connections.contains(y)
                            && can_occupy_at(m, y) implies g_val(g_score@, y) <= sat_add(
                        g_val(g_score@, d),
                        spec_cost(m, d, y),
                    ) by {
                        assert(closed_at(m, g_score@, search_ids@, d, m[d].connections));
                    }
                    assert forall|y: u32| g_val(g_score@, y) < u32::MAX implies #[trigger] done.contains(
                        y,
                    ) by {
                        assert(g_score@.dom().contains(y));
                    }
                    lemma_no_path_reach(m, g_score@, done, a, b, p);
                    assert(false);
                }
            }
        }
        None
    }
}

} // verus!
