//! Mesh routing: find paths through the mycorrhizal network.
//!
//! Like nutrients finding their way through a fungal network, messages
//! must be routed optimally. We offer three strategies inspired by
//! how real mycorrhizal networks adapt to conditions.
//!
//! Each strategy scores a walk by folding its links into a value: the sum of
//! latencies (lower is better), the product of reliabilities in units of
//! 10^-18, rounded down at each link (higher is better), or the smallest
//! bandwidth (higher is better).  A Dijkstra search finds a walk whose value
//! no other walk beats; the most-reliable search crosses only links of
//! reliability above zero, as a link that never carries a message is no way
//! through.
use vstd::prelude::*;
use crate::hyphae_link::{HyphaeLink, UNIT};
use crate::ident::{id_views, same_id, find_id};
use crate::mesh::Mesh;
use crate::walk::{
    joins, no_parallel_links, is_walk_between, full_mask, universe, lemma_universe, uses_only,
    lemma_walk_push, lemma_walk_here,
};

verus! {

broadcast use vstd::seq_lib::group_seq_properties;

/// A computed route through the mesh.
#[derive(Debug, Clone)]
pub struct Route {
    pub path: Vec<String>,
    /// Total latency in microseconds (`u64::MAX` when there is no route).
    pub total_latency: u64,
    /// Reliability in units of 10^-18.
    pub reliability: u64,
    pub hops: usize,
}

impl Route {
    pub fn new(path: Vec<String>, total_latency: u64, reliability: u64) -> (r: Self)
        ensures
            r.path@ == path@,
            r.total_latency == total_latency,
            r.reliability == reliability,
            r.hops == if path@.len() == 0 {
                0
            } else {
                path@.len() - 1
            },
    {
        let hops = if path.len() == 0 {
            0
        } else {
            path.len() - 1
        };
        Route { path, total_latency, reliability, hops }
    }

    /// An empty route representing no path found.
    pub fn none() -> (r: Self)
        ensures
            r.path@.len() == 0,
            r.total_latency == u64::MAX,
            r.reliability == 0,
            r.hops == 0,
    {
        Route { path: Vec::new(), total_latency: u64::MAX, reliability: 0, hops: 0 }
    }

    pub fn is_valid(&self) -> (r: bool)
        ensures
            r == (self.path@.len() > 0),
    {
        self.path.len() > 0
    }
}

/// Routing algorithm variant.
#[derive(Debug, Clone, Copy, PartialEq, Eq, Structural)]
pub enum RoutingAlgorithm {
    /// Shortest path by latency (standard Dijkstra).
    ShortestPath,
    /// Most-reliable path (maximize product of link reliabilities).
    MostReliable,
    /// Widest path: maximize minimum bandwidth along the path (maximin).
    WidestPath,
}

/// The value of the empty walk.
pub open spec fn start_value(alg: RoutingAlgorithm) -> u64 {
    match alg {
        RoutingAlgorithm::ShortestPath => 0,
        RoutingAlgorithm::MostReliable => UNIT,
        RoutingAlgorithm::WidestPath => u64::MAX,
    }
}

/// The value of a walk of value `v` extended across link `l`.
pub open spec fn extend(alg: RoutingAlgorithm, v: u64, l: HyphaeLink) -> u64 {
    match alg {
        RoutingAlgorithm::ShortestPath => if v + l.latency > u64::MAX {
            u64::MAX
        } else {
            (v + l.latency) as u64
        },
        RoutingAlgorithm::MostReliable => (v * l.spec_reliability() / (UNIT as int)) as u64,
        RoutingAlgorithm::WidestPath => if v <= l.bandwidth {
            v
        } else {
            l.bandwidth
        },
    }
}

/// `a` is a strictly better value than `b`.
pub open spec fn better(alg: RoutingAlgorithm, a: u64, b: u64) -> bool {
    match alg {
        RoutingAlgorithm::ShortestPath => a < b,
        _ => a > b,
    }
}

/// The value of the walk that crosses the links `edges`.
pub open spec fn walk_value(alg: RoutingAlgorithm, links: Seq<HyphaeLink>, edges: Seq<int>) -> u64
    decreases edges.len(),
{
    if edges.len() == 0 {
        start_value(alg)
    } else {
        extend(alg, walk_value(alg, links, edges.drop_last()), links[edges.last()])
    }
}

/// `path` is a walk from `a` to `b` of value `v`, and no walk from `a` to
/// `b` has a better value.
pub open spec fn is_best_walk(
    alg: RoutingAlgorithm,
    links: Seq<HyphaeLink>,
    path: Seq<Seq<char>>,
    v: u64,
    a: Seq<char>,
    b: Seq<char>,
) -> bool {
    &&& exists|edges: Seq<int>|
        #[trigger] is_walk_between(links, full_mask(links.len()), path, edges, a, b) && walk_value(
            alg,
            links,
            edges,
        ) == v
    &&& forall|nodes: Seq<Seq<char>>, edges: Seq<int>|
        #[trigger] is_walk_between(links, full_mask(links.len()), nodes, edges, a, b) ==> !better(
            alg,
            walk_value(alg, links, edges),
            v,
        )
}

/// No walk leads from `a` to `b`.
pub open spec fn no_walk(links: Seq<HyphaeLink>, a: Seq<char>, b: Seq<char>) -> bool {
    forall|nodes: Seq<Seq<char>>, edges: Seq<int>|
        !#[trigger] is_walk_between(links, full_mask(links.len()), nodes, edges, a, b)
}

/// The first link joining `a` and `b`.
pub open spec fn first_link(links: Seq<HyphaeLink>, a: Seq<char>, b: Seq<char>) -> Option<HyphaeLink>
    decreases links.len(),
{
    if links.len() == 0 {
        None
    } else if joins(links[0], a, b) {
        Some(links[0])
    } else {
        first_link(links.drop_first(), a, b)
    }
}

/// The latency of the step from `a` to `b`: that of the first link joining
/// them, or nothing without one.
pub open spec fn step_latency(links: Seq<HyphaeLink>, a: Seq<char>, b: Seq<char>) -> u64 {
    match first_link(links, a, b) {
        Some(l) => l.latency,
        None => 0,
    }
}

/// The reliability of the step from `a` to `b`: that of the first link
/// joining them, or certainty without one.
pub open spec fn step_reliability(links: Seq<HyphaeLink>, a: Seq<char>, b: Seq<char>) -> u64 {
    match first_link(links, a, b) {
        Some(l) => l.spec_reliability(),
        None => UNIT,
    }
}

/// The summed step latencies of a path (saturating at `u64::MAX`).
pub open spec fn path_latency(links: Seq<HyphaeLink>, path: Seq<Seq<char>>) -> u64
    decreases path.len(),
{
    if path.len() < 2 {
        0
    } else {
        let rest = path_latency(links, path.drop_last());
        let s = step_latency(links, path[path.len() - 2], path[path.len() - 1]);
        if rest + s > u64::MAX {
            u64::MAX
        } else {
            (rest + s) as u64
        }
    }
}

/// The product of the step reliabilities of a path, in units of 10^-18,
/// rounded down after each step.
pub open spec fn path_reliability(links: Seq<HyphaeLink>, path: Seq<Seq<char>>) -> u64
    decreases path.len(),
{
    if path.len() < 2 {
        UNIT
    } else {
        let rest = path_reliability(links, path.drop_last());
        (rest * step_reliability(links, path[path.len() - 2], path[path.len() - 1]) / (
        UNIT as int)) as u64
    }
}

pub proof fn lemma_not_better_trans(alg: RoutingAlgorithm, a: u64, b: u64, c: u64)
    requires
        !better(alg, a, b),
        !better(alg, b, c),
    ensures
        !better(alg, a, c),
{
}

/// Scaling by a fraction of at most one never grows a value.
pub proof fn lemma_scaled_le(v: u64, r: u64)
    requires
        r <= UNIT,
    ensures
        0 <= (v * r) / (UNIT as int) <= v,
{
    assert(v * r <= v * UNIT) by (nonlinear_arith)
        requires
            r <= UNIT,
    ;
    assert(0 <= v * r) by (nonlinear_arith);
    vstd::arithmetic::div_mod::lemma_div_is_ordered(v * r, v * UNIT, UNIT as int);
    vstd::arithmetic::div_mod::lemma_div_is_ordered(0, v * r, UNIT as int);
    vstd::arithmetic::div_mod::lemma_div_multiples_vanish(v as int, UNIT as int);
}

pub proof fn lemma_extend_not_better(alg: RoutingAlgorithm, v: u64, l: HyphaeLink)
    ensures
        !better(alg, extend(alg, v, l), v),
{
    if alg == RoutingAlgorithm::MostReliable {
        lemma_scaled_le(v, l.spec_reliability());
    }
}

pub proof fn lemma_extend_monotone(alg: RoutingAlgorithm, a: u64, b: u64, l: HyphaeLink)
    requires
        !better(alg, a, b),
    ensures
        !better(alg, extend(alg, a, l), extend(alg, b, l)),
{
    if alg == RoutingAlgorithm::MostReliable {
        let r = l.spec_reliability();
        lemma_scaled_le(a, r);
        lemma_scaled_le(b, r);
        assert(a * r <= b * r) by {
            vstd::arithmetic::mul::lemma_mul_inequality(a as int, b as int, r as int);
        }
        vstd::arithmetic::div_mod::lemma_div_is_ordered(a * r, b * r, UNIT as int);
    }
}


/// No walk is better than staying put.
pub proof fn lemma_walk_value_bound(alg: RoutingAlgorithm, links: Seq<HyphaeLink>, edges: Seq<int>)
    ensures
        !better(alg, walk_value(alg, links, edges), start_value(alg)),
    decreases edges.len(),
{
    if edges.len() > 0 {
        lemma_walk_value_bound(alg, links, edges.drop_last());
        lemma_extend_not_better(alg, walk_value(alg, links, edges.drop_last()), links[edges.last()]);
    }
}

/// A walk without its last step is a walk.
pub proof fn lemma_walk_drop_last(
    links: Seq<HyphaeLink>,
    mask: Seq<bool>,
    nodes: Seq<Seq<char>>,
    edges: Seq<int>,
    a: Seq<char>,
    b: Seq<char>,
)
    requires
        is_walk_between(links, mask, nodes, edges, a, b),
        edges.len() > 0,
    ensures
        is_walk_between(
            links,
            mask,
            nodes.drop_last(),
            edges.drop_last(),
            a,
            nodes[nodes.len() - 2],
        ),
        joins(links[edges.last()], nodes[nodes.len() - 2], b),
        0 <= edges.last() < links.len(),
{
    let n2 = nodes.drop_last();
    let e2 = edges.drop_last();
    assert forall|k: int| 0 <= k < e2.len() implies 0 <= #[trigger] e2[k] < links.len() && joins(
        links[e2[k]],
        n2[k],
        n2[k + 1],
    ) by {
        assert(e2[k] == edges[k]);
    }
    assert(uses_only(e2, mask)) by {
        assert forall|k: int| 0 <= k < e2.len() implies #[trigger] mask[e2[k]] by {
            assert(e2[k] == edges[k]);
        }
    }
    let k = edges.len() - 1;
    assert(joins(links[edges[k]], nodes[k], nodes[k + 1]));
}

/// Some link joins `a` and `b`.
pub open spec fn adjacent(links: Seq<HyphaeLink>, a: Seq<char>, b: Seq<char>) -> bool {
    exists|i: int| 0 <= i < links.len() && #[trigger] joins(links[i], a, b)
}

/// `p` starts at `a` and each next node is joined to the one before it.
pub open spec fn is_trail_from(links: Seq<HyphaeLink>, p: Seq<Seq<char>>, a: Seq<char>) -> bool {
    &&& p.len() >= 1
    &&& p[0] == a
    &&& p.no_duplicates()
    &&& forall|k: int| 0 <= k < p.len() - 1 ==> adjacent(links, #[trigger] p[k], p[k + 1])
}

/// `p` is a simple path (no node twice) from `a` to `b`.
pub open spec fn is_simple_route(links: Seq<HyphaeLink>, p: Seq<Seq<char>>, a: Seq<char>, b: Seq<char>) -> bool {
    is_trail_from(links, p, a) && p[p.len() - 1] == b
}

/// The route's latency, reliability and hop count are those of its path,
/// step by step over the first link joining each pair of nodes.
pub open spec fn describes_path(links: Seq<HyphaeLink>, r: Route) -> bool {
    &&& r.path@.len() >= 1
    &&& r.hops == r.path@.len() - 1
    &&& r.total_latency == path_latency(links, id_views(r.path@))
    &&& r.reliability == path_reliability(links, id_views(r.path@))
}

/// The empty route that stands for no path.
pub open spec fn is_no_route(r: Route) -> bool {
    &&& r.path@.len() == 0
    &&& r.total_latency == u64::MAX
    &&& r.reliability == 0
    &&& r.hops == 0
}

/// The links that can carry a message: those of reliability above zero,
/// in order.
pub open spec fn carrying(links: Seq<HyphaeLink>) -> Seq<HyphaeLink>
    decreases links.len(),
{
    if links.len() == 0 {
        Seq::empty()
    } else {
        let rest = carrying(links.drop_last());
        if links.last().spec_reliability() > 0 {
            rest.push(links.last())
        } else {
            rest
        }
    }
}

/// The links the search with `alg` crosses: for the most-reliable search
/// those that can carry a message, for the others every link.
pub open spec fn search_links(alg: RoutingAlgorithm, links: Seq<HyphaeLink>) -> Seq<HyphaeLink> {
    match alg {
        RoutingAlgorithm::MostReliable => carrying(links),
        _ => links,
    }
}

/// What the search with `alg` returns for `a` to `b`: the empty route
/// exactly when no walk over the links it crosses leads from `a` to `b`,
/// else a best such walk that repeats no node, with its latency and
/// reliability (for the most-reliable search, the walk's own reliability).
pub open spec fn is_route_for(alg: RoutingAlgorithm, links: Seq<HyphaeLink>, a: Seq<char>, b: Seq<char>, r: Route) -> bool {
    let ls = search_links(alg, links);
    if r.path@.len() == 0 {
        is_no_route(r) && no_walk(ls, a, b)
    } else {
        &&& id_views(r.path@).no_duplicates()
        &&& r.hops == r.path@.len() - 1
        &&& r.total_latency == path_latency(links, id_views(r.path@))
        &&& match alg {
            RoutingAlgorithm::MostReliable => is_best_walk(alg, ls, id_views(r.path@), r.reliability, a, b),
            _ => r.reliability == path_reliability(links, id_views(r.path@)) && exists|v: u64|
                is_best_walk(alg, ls, id_views(r.path@), v, a, b),
        }
    }
}

/// `rs` is what a search for simple paths from `a` to `b` may return: at
/// most `max` routes, each along a simple path from `a` to `b` with the
/// latency and reliability of that path, and every such path among them
/// unless the search stopped at `max`.
pub open spec fn is_path_search(links: Seq<HyphaeLink>, a: Seq<char>, b: Seq<char>, max: nat, rs: Seq<Route>) -> bool {
    &&& rs.len() <= max
    &&& forall|k: int|
        0 <= k < rs.len() ==> is_simple_route(links, id_views((#[trigger] rs[k]).path@), a, b) && describes_path(
            links,
            rs[k],
        )
    &&& rs.len() < max ==> forall|p: Seq<Seq<char>>| #[trigger] is_simple_route(links, p, a, b) ==> route_paths(rs).contains(p)
}

/// The paths of a sequence of routes.
pub open spec fn route_paths(rs: Seq<Route>) -> Seq<Seq<Seq<char>>> {
    rs.map_values(|r: Route| id_views(r.path@))
}

/// What a route says: its path, latency, reliability and hop count.
pub open spec fn route_view(r: Route) -> (Seq<Seq<char>>, u64, u64, usize) {
    (id_views(r.path@), r.total_latency, r.reliability, r.hops)
}

/// What a route along the path `p` says: the path, its latency, its
/// reliability and its hop count.
pub open spec fn path_view(links: Seq<HyphaeLink>, p: Seq<Seq<char>>) -> (Seq<Seq<char>>, u64, u64, usize) {
    (p, path_latency(links, p), path_reliability(links, p), (p.len() - 1) as usize)
}

/// What the routes of a search for at most `m` simple paths from `a` to `b`
/// say, in order.
pub open spec fn searched_routes(links: Seq<HyphaeLink>, a: Seq<char>, b: Seq<char>, m: nat) -> Seq<
    (Seq<Seq<char>>, u64, u64, usize),
> {
    first_at_most(simple_paths_in_order(links, a, b), m).map_values(|p: Seq<Seq<char>>| path_view(links, p))
}

/// The routes of a search are those its paths describe.
pub proof fn lemma_search_views(links: Seq<HyphaeLink>, a: Seq<char>, b: Seq<char>, m: nat, rs: Seq<Route>)
    requires
        is_path_search(links, a, b, m, rs),
        route_paths(rs) == first_at_most(simple_paths_in_order(links, a, b), m),
    ensures
        rs.map_values(|r: Route| route_view(r)) == searched_routes(links, a, b, m),
{
    let f = first_at_most(simple_paths_in_order(links, a, b), m);
    assert(rs.len() == route_paths(rs).len());
    assert forall|k: int| 0 <= k < rs.len() implies route_view(rs[k]) == path_view(links, f[k]) by {
        assert(route_paths(rs)[k] == id_views(rs[k].path@));
        assert(describes_path(links, rs[k]));
        assert(id_views(rs[k].path@).len() == rs[k].path@.len());
    }
    assert(rs.map_values(|r: Route| route_view(r)) =~= searched_routes(links, a, b, m));
}

/// A search for simple paths is fixed by the paths it lists: two results
/// that list the first `max` simple paths from `a` to `b` in search order
/// agree route for route.  So the routes a plan holds for a target are
/// those `find_all_paths` returns for it.
pub proof fn lemma_path_search_determined(
    links: Seq<HyphaeLink>,
    a: Seq<char>,
    b: Seq<char>,
    max: nat,
    rs1: Seq<Route>,
    rs2: Seq<Route>,
)
    requires
        is_path_search(links, a, b, max, rs1),
        is_path_search(links, a, b, max, rs2),
        route_paths(rs1) == first_at_most(simple_paths_in_order(links, a, b), max),
        route_paths(rs2) == first_at_most(simple_paths_in_order(links, a, b), max),
    ensures
        rs1.map_values(|r: Route| route_view(r)) == rs2.map_values(|r: Route| route_view(r)),
{
    assert(rs1.len() == route_paths(rs1).len());
    assert(rs2.len() == route_paths(rs2).len());
    assert forall|k: int| 0 <= k < rs1.len() implies route_view(rs1[k]) == route_view(rs2[k]) by {
        assert(route_paths(rs1)[k] == route_paths(rs2)[k]);
        assert(describes_path(links, rs1[k]));
        assert(describes_path(links, rs2[k]));
        assert(id_views(rs1[k].path@).len() == rs1[k].path@.len());
        assert(id_views(rs2[k].path@).len() == rs2[k].path@.len());
    }
    assert(rs1.map_values(|r: Route| route_view(r)) =~= rs2.map_values(|r: Route| route_view(r)));
}

/// The links that can carry a message.
fn carrying_links(links: &Vec<HyphaeLink>) -> (r: Vec<HyphaeLink>)
    ensures
        r@ == carrying(links@),
{
    let mut r: Vec<HyphaeLink> = Vec::new();
    let mut i: usize = 0;
    while i < links.len()
        invariant
            i <= links@.len(),
            r@ == carrying(links@.take(i as int)),
        decreases links@.len() - i,
    {
        assert(links@.take(i + 1).drop_last() =~= links@.take(i as int));
        assert(links@.take(i + 1).last() == links@[i as int]);
        if links[i].reliability() > 0 {
            r.push(links[i].duplicate());
        }
        i = i + 1;
    }
    assert(links@.take(i as int) =~= links@);
    r
}

/// A walk from the source waiting to be extended.
struct Candidate {
    node: String,
    value: u64,
    path: Vec<String>,
    edges: Ghost<Seq<int>>,
}

/// The best value known for each node found so far.
struct DistTable {
    keys: Vec<String>,
    vals: Vec<u64>,
    map: Ghost<Map<Seq<char>, u64>>,
}

impl DistTable {
    spec fn wf(&self) -> bool {
        &&& self.keys@.len() == self.vals@.len()
        &&& id_views(self.keys@).no_duplicates()
        &&& forall|i: int|
            0 <= i < self.keys@.len() ==> self.map@.dom().contains(#[trigger] self.keys@[i]@)
                && self.map@[self.keys@[i]@] == self.vals@[i]
        &&& forall|x: Seq<char>| #[trigger] self.map@.dom().contains(x) ==> id_views(self.keys@).contains(x)
    }

    fn new() -> (r: Self)
        ensures
            r.wf(),
            r.map@ == Map::<Seq<char>, u64>::empty(),
    {
        let r = DistTable { keys: Vec::new(), vals: Vec::new(), map: Ghost(Map::empty()) };
        assert(id_views(r.keys@) =~= Seq::<Seq<char>>::empty());
        r
    }

    fn get(&self, x: &str) -> (r: Option<u64>)
        requires
            self.wf(),
        ensures
            r == if self.map@.dom().contains(x@) {
                Some(self.map@[x@])
            } else {
                None::<u64>
            },
    {
        match find_id(&self.keys, x) {
            Some(k) => Some(self.vals[k]),
            None => {
                proof {
                    if self.map@.dom().contains(x@) {
                        let j = id_views(self.keys@).index_of(x@);
                        assert(self.keys@[j]@ == x@);
                    }
                }
                None
            },
        }
    }

    fn set(&mut self, x: &String, v: u64)
        requires
            old(self).wf(),
        ensures
            final(self).wf(),
            final(self).map@ == old(self).map@.insert(x@, v),
    {
        match find_id(&self.keys, x.as_str()) {
            Some(k) => {
                self.vals.set(k, v);
                self.map = Ghost(self.map@.insert(x@, v));
                proof {
                    assert forall|i: int|
                        0 <= i < self.keys@.len() implies self.map@.dom().contains(
                        #[trigger] self.keys@[i]@,
                    ) && self.map@[self.keys@[i]@] == self.vals@[i] by {
                        if i != k {
                            assert(id_views(self.keys@)[i] != id_views(self.keys@)[k as int]);
                        }
                    }
                }
            },
            None => {
                let ghost old_keys = id_views(self.keys@);
                self.keys.push(x.clone());
                self.vals.push(v);
                self.map = Ghost(self.map@.insert(x@, v));
                proof {
                    assert(id_views(self.keys@) =~= old_keys.push(x@));
                    assert forall|x2: Seq<char>| #[trigger] self.map@.dom().contains(x2) implies id_views(
                        self.keys@,
                    ).contains(x2) by {
                        if x2 == x@ {
                            assert(id_views(self.keys@)[old_keys.len() as int] == x2);
                        } else {
                            assert(old(self).map@.dom().contains(x2));
                            let j = old_keys.index_of(x2);
                            assert(id_views(self.keys@)[j] == x2);
                        }
                    }
                    assert forall|i: int|
                        0 <= i < self.keys@.len() implies self.map@.dom().contains(
                        #[trigger] self.keys@[i]@,
                    ) && self.map@[self.keys@[i]@] == self.vals@[i] by {
                        if i < old_keys.len() {
                            assert(old_keys[i] != x@);
                        }
                    }
                }
            },
        }
    }
}

/// The candidate is a walk from `s` with the value it claims, no better
/// than the value known for its node.
spec fn candidate_ok(
    alg: RoutingAlgorithm,
    links: Seq<HyphaeLink>,
    s: Seq<char>,
    dist: Map<Seq<char>, u64>,
    u: Set<Seq<char>>,
    c: Candidate,
) -> bool {
    &&& is_walk_between(links, full_mask(links.len()), id_views(c.path@), c.edges@, s, c.node@)
    &&& walk_value(alg, links, c.edges@) == c.value
    &&& dist.dom().contains(c.node@)
    &&& !better(alg, c.value, dist[c.node@])
    &&& u.contains(c.node@)
}

/// `y` is known, with a value at least as good as `v`.
spec fn dist_at_least(alg: RoutingAlgorithm, dist: Map<Seq<char>, u64>, y: Seq<char>, v: u64) -> bool {
    dist.dom().contains(y) && !better(alg, v, dist[y])
}

/// Crossing link `i` from `x` gives `y` nothing better than it has.
spec fn relaxed_at(
    alg: RoutingAlgorithm,
    links: Seq<HyphaeLink>,
    dist: Map<Seq<char>, u64>,
    x: Seq<char>,
    i: int,
    y: Seq<char>,
) -> bool {
    dist_at_least(alg, dist, y, extend(alg, dist[x], links[i]))
}

/// The value known for a settled node is optimal.
spec fn settled_ok(
    alg: RoutingAlgorithm,
    links: Seq<HyphaeLink>,
    s: Seq<char>,
    dist: Map<Seq<char>, u64>,
    x: Seq<char>,
) -> bool {
    &&& dist.dom().contains(x)
    &&& forall|nodes: Seq<Seq<char>>, edges: Seq<int>|
        #[trigger] is_walk_between(links, full_mask(links.len()), nodes, edges, s, x) ==> !better(
            alg,
            walk_value(alg, links, edges),
            dist[x],
        )
}

/// Some waiting candidate for `x` has value `v`.
spec fn in_heap(heap: Seq<Candidate>, x: Seq<char>, v: u64) -> bool {
    exists|k: int| 0 <= k < heap.len() && (#[trigger] heap[k]).node@ == x && heap[k].value == v
}

/// `v` is no better than the value of any settled node.
spec fn below_settled(alg: RoutingAlgorithm, dist: Map<Seq<char>, u64>, settled: Set<Seq<char>>, v: u64) -> bool {
    forall|x: Seq<char>| #[trigger] settled.contains(x) ==> !better(alg, v, dist[x])
}

/// The links crossed from `v` so far: both sides of the first `done2 / 2`
/// links, and the first side of the next when `done2` is odd.
spec fn covered(links: Seq<HyphaeLink>, v: Seq<char>, i: int, y: Seq<char>, done2: int) -> bool {
    2 * i + 2 <= done2 || (2 * i + 1 <= done2 && links[i].from@ == v && links[i].to@ == y)
}

/// The state of the search.
spec fn search_inv(
    alg: RoutingAlgorithm,
    links: Seq<HyphaeLink>,
    s: Seq<char>,
    t: Seq<char>,
    u: Set<Seq<char>>,
    dist: Map<Seq<char>, u64>,
    heap: Seq<Candidate>,
    settled: Set<Seq<char>>,
    pending: Seq<char>,
    done2: int,
) -> bool {
    &&& u.finite()
    &&& forall|x: Seq<char>| #[trigger] settled.contains(x) ==> u.contains(x)
    &&& !settled.contains(t)
    &&& dist.dom().contains(s)
    &&& dist[s] == start_value(alg)
    &&& forall|k: int| 0 <= k < heap.len() ==> #[trigger] candidate_ok(alg, links, s, dist, u, heap[k])
    &&& forall|x: Seq<char>| #[trigger] settled.contains(x) ==> settled_ok(alg, links, s, dist, x)
    &&& forall|x: Seq<char>, i: int, y: Seq<char>|
        #[trigger] joins(links[i], x, y) && settled.contains(x) && 0 <= i < links.len() && (x
            != pending || covered(links, x, i, y, done2)) ==> relaxed_at(alg, links, dist, x, i, y)
    &&& forall|x: Seq<char>| #[trigger] dist.dom().contains(x) ==> settled.contains(x) || in_heap(heap, x, dist[x])
    &&& forall|k: int| 0 <= k < heap.len() ==> below_settled(alg, dist, settled, (#[trigger] heap[k]).value)
}

/// Every walk from the source either ends at a settled node no better than
/// its value, or is matched by a waiting candidate at least as good.
proof fn lemma_walk_covered(
    alg: RoutingAlgorithm,
    links: Seq<HyphaeLink>,
    s: Seq<char>,
    t: Seq<char>,
    u: Set<Seq<char>>,
    dist: Map<Seq<char>, u64>,
    heap: Seq<Candidate>,
    settled: Set<Seq<char>>,
    pending: Seq<char>,
    nodes: Seq<Seq<char>>,
    edges: Seq<int>,
    y: Seq<char>,
)
    requires
        search_inv(alg, links, s, t, u, dist, heap, settled, pending, 2 * links.len() as int),
        is_walk_between(links, full_mask(links.len()), nodes, edges, s, y),
    ensures
        (settled.contains(y) && !better(alg, walk_value(alg, links, edges), dist[y])) || (exists|k: int|
            0 <= k < heap.len() && !better(alg, walk_value(alg, links, edges), (#[trigger] heap[k]).value)),
    decreases edges.len(),
{
    let w = walk_value(alg, links, edges);
    if edges.len() == 0 {
        assert(y == s);
        assert(w == start_value(alg));
        if !settled.contains(s) {
            assert(dist.dom().contains(s));
            assert(in_heap(heap, s, dist[s]));
            let k = choose|k: int| 0 <= k < heap.len() && (#[trigger] heap[k]).node@ == s && heap[k].value == dist[s];
            assert(!better(alg, w, heap[k].value));
        }
    } else {
        let prev = nodes[nodes.len() - 2];
        let e = edges.last();
        lemma_walk_drop_last(links, full_mask(links.len()), nodes, edges, s, y);
        lemma_walk_covered(alg, links, s, t, u, dist, heap, settled, pending, nodes.drop_last(), edges.drop_last(), prev);
        let wp = walk_value(alg, links, edges.drop_last());
        assert(w == extend(alg, wp, links[e]));
        lemma_extend_not_better(alg, wp, links[e]);
        if settled.contains(prev) && !better(alg, wp, dist[prev]) {
            assert(joins(links[e], prev, y));
            assert(covered(links, prev, e, y, 2 * links.len() as int));
            assert(relaxed_at(alg, links, dist, prev, e, y));
            lemma_extend_monotone(alg, wp, dist[prev], links[e]);
            let ext = extend(alg, dist[prev], links[e]);
            if dist.dom().contains(y) {
                lemma_not_better_trans(alg, w, ext, dist[y]);
                if !settled.contains(y) {
                    assert(in_heap(heap, y, dist[y]));
                    let k = choose|k: int| 0 <= k < heap.len() && (#[trigger] heap[k]).node@ == y && heap[k].value == dist[y];
                    assert(!better(alg, w, heap[k].value));
                }
            }
        } else if exists|k: int| 0 <= k < heap.len() && !better(alg, wp, (#[trigger] heap[k]).value) {
            let k = choose|k: int| 0 <= k < heap.len() && !better(alg, wp, (#[trigger] heap[k]).value);
            lemma_not_better_trans(alg, w, wp, heap[k].value);
        }
    }
}

/// Taking out the waiting candidate with the best value: no walk to its
/// node, when that node is not settled, is better.
proof fn lemma_pop_optimal(
    alg: RoutingAlgorithm,
    links: Seq<HyphaeLink>,
    s: Seq<char>,
    t: Seq<char>,
    u: Set<Seq<char>>,
    dist: Map<Seq<char>, u64>,
    heap: Seq<Candidate>,
    settled: Set<Seq<char>>,
    pending: Seq<char>,
    m: int,
    y: Seq<char>,
)
    requires
        search_inv(alg, links, s, t, u, dist, heap, settled, pending, 2 * links.len() as int),
        0 <= m < heap.len(),
        forall|k: int| 0 <= k < heap.len() ==> !better(alg, (#[trigger] heap[k]).value, heap[m].value),
        !settled.contains(y),
    ensures
        forall|nodes: Seq<Seq<char>>, edges: Seq<int>|
            #[trigger] is_walk_between(links, full_mask(links.len()), nodes, edges, s, y) ==> !better(
                alg,
                walk_value(alg, links, edges),
                heap[m].value,
            ),
{
    assert forall|nodes: Seq<Seq<char>>, edges: Seq<int>|
        #[trigger] is_walk_between(links, full_mask(links.len()), nodes, edges, s, y) implies !better(
        alg,
        walk_value(alg, links, edges),
        heap[m].value,
    ) by {
        lemma_walk_covered(alg, links, s, t, u, dist, heap, settled, pending, nodes, edges, y);
        let w = walk_value(alg, links, edges);
        if exists|k: int| 0 <= k < heap.len() && !better(alg, w, (#[trigger] heap[k]).value) {
            let k = choose|k: int| 0 <= k < heap.len() && !better(alg, w, (#[trigger] heap[k]).value);
            lemma_not_better_trans(alg, w, heap[k].value, heap[m].value);
        }
    }
}

pub proof fn lemma_not_better_past(alg: RoutingAlgorithm, a: u64, b: u64, c: u64)
    requires
        !better(alg, a, b),
        better(alg, c, b),
    ensures
        !better(alg, a, c),
{
}

/// The value of a walk extended by one link.
proof fn lemma_walk_value_push(alg: RoutingAlgorithm, links: Seq<HyphaeLink>, edges: Seq<int>, i: int)
    ensures
        walk_value(alg, links, edges.push(i)) == extend(alg, walk_value(alg, links, edges), links[i]),
{
    assert(edges.push(i).drop_last() =~= edges);
}

/// Taking out a stale candidate (one its node has already bettered) keeps
/// the state of the search.
proof fn lemma_drop_stale(
    alg: RoutingAlgorithm,
    links: Seq<HyphaeLink>,
    s: Seq<char>,
    t: Seq<char>,
    u: Set<Seq<char>>,
    dist: Map<Seq<char>, u64>,
    before: Seq<Candidate>,
    settled: Set<Seq<char>>,
    pending: Seq<char>,
    m: int,
)
    requires
        search_inv(alg, links, s, t, u, dist, before, settled, pending, 2 * links.len() as int),
        0 <= m < before.len(),
        before[m].value != dist[before[m].node@],
    ensures
        search_inv(alg, links, s, t, u, dist, before.remove(m), settled, pending, 2 * links.len() as int),
{
    let after = before.remove(m);
    assert forall|k: int| 0 <= k < after.len() implies #[trigger] candidate_ok(alg, links, s, dist, u, after[k]) by {
        if k < m {
            assert(after[k] == before[k]);
        } else {
            assert(after[k] == before[k + 1]);
        }
    }
    assert forall|k: int| 0 <= k < after.len() implies below_settled(alg, dist, settled, (#[trigger] after[k]).value) by {
        if k < m {
            assert(after[k] == before[k]);
        } else {
            assert(after[k] == before[k + 1]);
        }
    }
    assert forall|x: Seq<char>| #[trigger] dist.dom().contains(x) implies settled.contains(x) || in_heap(after, x, dist[x]) by {
        if !settled.contains(x) {
            assert(in_heap(before, x, dist[x]));
            let k = choose|k: int| 0 <= k < before.len() && (#[trigger] before[k]).node@ == x && before[k].value == dist[x];
            assert(k != m);
            if k < m {
                assert(after[k] == before[k]);
            } else {
                assert(after[k - 1] == before[k]);
            }
        }
    }
}

/// Taking out the best candidate `m`, not stale, and settling its node.
proof fn lemma_settle(
    alg: RoutingAlgorithm,
    links: Seq<HyphaeLink>,
    s: Seq<char>,
    t: Seq<char>,
    u: Set<Seq<char>>,
    dist: Map<Seq<char>, u64>,
    before: Seq<Candidate>,
    settled: Set<Seq<char>>,
    pending: Seq<char>,
    m: int,
)
    requires
        search_inv(alg, links, s, t, u, dist, before, settled, pending, 2 * links.len() as int),
        0 <= m < before.len(),
        forall|k: int| 0 <= k < before.len() ==> !better(alg, (#[trigger] before[k]).value, before[m].value),
        before[m].value == dist[before[m].node@],
        before[m].node@ != t,
    ensures
        search_inv(
            alg,
            links,
            s,
            t,
            u,
            dist,
            before.remove(m),
            settled.insert(before[m].node@),
            before[m].node@,
            0,
        ),
        below_settled(alg, dist, settled.insert(before[m].node@), before[m].value),
{
    let v = before[m].node@;
    let c = before[m].value;
    let after = before.remove(m);
    let st = settled.insert(v);
    if !settled.contains(v) {
        lemma_pop_optimal(alg, links, s, t, u, dist, before, settled, pending, m, v);
    }
    assert(candidate_ok(alg, links, s, dist, u, before[m]));
    assert forall|x: Seq<char>| #[trigger] st.contains(x) implies settled_ok(alg, links, s, dist, x) by {
        if x != v {
            assert(settled.contains(x));
        }
    }
    assert forall|x: Seq<char>| #[trigger] st.contains(x) implies u.contains(x) by {
        if x != v {
            assert(settled.contains(x));
        }
    }
    assert forall|k: int| 0 <= k < after.len() implies #[trigger] candidate_ok(alg, links, s, dist, u, after[k]) by {
        if k < m {
            assert(after[k] == before[k]);
        } else {
            assert(after[k] == before[k + 1]);
        }
    }
    assert forall|k: int| 0 <= k < after.len() implies below_settled(alg, dist, st, (#[trigger] after[k]).value) by {
        let j = if k < m { k } else { k + 1 };
        assert(after[k] == before[j]);
        assert(below_settled(alg, dist, settled, before[j].value));
        assert forall|x: Seq<char>| #[trigger] st.contains(x) implies !better(alg, after[k].value, dist[x]) by {
            if x == v {
                assert(!better(alg, before[j].value, c));
            } else {
                assert(settled.contains(x));
            }
        }
    }
    assert forall|x: Seq<char>| #[trigger] dist.dom().contains(x) implies st.contains(x) || in_heap(after, x, dist[x]) by {
        if !st.contains(x) {
            assert(in_heap(before, x, dist[x]));
            let k = choose|k: int| 0 <= k < before.len() && (#[trigger] before[k]).node@ == x && before[k].value == dist[x];
            assert(k != m);
            if k < m {
                assert(after[k] == before[k]);
            } else {
                assert(after[k - 1] == before[k]);
            }
        }
    }
    assert forall|x: Seq<char>, i: int, y: Seq<char>|
        #[trigger] joins(links[i], x, y) && st.contains(x) && 0 <= i < links.len() && (x != v || covered(links, x, i, y, 0))
        implies relaxed_at(alg, links, dist, x, i, y) by {
        assert(settled.contains(x));
        assert(covered(links, x, i, y, 2 * links.len() as int));
    }
    assert forall|x: Seq<char>| #[trigger] st.contains(x) implies !better(alg, c, dist[x]) by {
        if x != v {
            assert(settled.contains(x));
            assert(below_settled(alg, dist, settled, before[m].value));
        }
    }
}

/// Offering a node across link `i` from the node being settled keeps the
/// state of the search, and afterwards that crossing gives the node nothing
/// better than it has.
proof fn lemma_offer_step(
    alg: RoutingAlgorithm,
    links: Seq<HyphaeLink>,
    s: Seq<char>,
    t: Seq<char>,
    u: Set<Seq<char>>,
    dist0: Map<Seq<char>, u64>,
    heap0: Seq<Candidate>,
    dist1: Map<Seq<char>, u64>,
    heap1: Seq<Candidate>,
    settled: Set<Seq<char>>,
    v: Seq<char>,
    done2: int,
    c: u64,
    path: Seq<Seq<char>>,
    edges: Seq<int>,
    i: int,
    y: Seq<char>,
    improved: bool,
)
    requires
        search_inv(alg, links, s, t, u, dist0, heap0, settled, v, done2),
        u == universe(links, s),
        settled.contains(v),
        dist0[v] == c,
        below_settled(alg, dist0, settled, c),
        is_walk_between(links, full_mask(links.len()), path, edges, s, v),
        walk_value(alg, links, edges) == c,
        0 <= i < links.len(),
        joins(links[i], v, y),
        improved == (!dist0.dom().contains(y) || better(alg, extend(alg, c, links[i]), dist0[y])),
        improved ==> dist1 == dist0.insert(y, extend(alg, c, links[i])),
        improved ==> heap1.len() == heap0.len() + 1,
        improved ==> heap1.drop_last() == heap0,
        improved ==> heap1.last().node@ == y,
        improved ==> heap1.last().value == extend(alg, c, links[i]),
        improved ==> id_views(heap1.last().path@) == path.push(y),
        improved ==> heap1.last().edges@ == edges.push(i),
        !improved ==> dist1 == dist0,
        !improved ==> heap1 == heap0,
    ensures
        search_inv(alg, links, s, t, u, dist1, heap1, settled, v, done2),
        dist1[v] == c,
        below_settled(alg, dist1, settled, c),
        relaxed_at(alg, links, dist1, v, i, y),
        forall|x: Seq<char>| #[trigger] settled.contains(x) ==> dist1[x] == dist0[x],
{
    let cand = extend(alg, c, links[i]);
    lemma_extend_not_better(alg, c, links[i]);
    lemma_walk_value_push(alg, links, edges, i);
    lemma_walk_value_bound(alg, links, edges.push(i));
    if improved {
        assert(!settled.contains(y)) by {
            if settled.contains(y) {
                assert(settled_ok(alg, links, s, dist0, y));
                lemma_not_better_trans(alg, cand, c, dist0[y]);
            }
        }
        assert(y != s) by {
            if y == s {
                assert(dist0.dom().contains(s));
            }
        }
        assert(v != y);
        lemma_universe(links, s);
        let mask = full_mask(links.len());
        lemma_walk_push(links, mask, path, edges, s, v, i, y);
        assert(candidate_ok(alg, links, s, dist1, u, heap1.last())) by {
            assert(heap1.last().value == walk_value(alg, links, edges.push(i)));
            assert(u == u);
            assert(links[i].from@ == y || links[i].to@ == y);
        }
        assert forall|k: int| 0 <= k < heap1.len() implies #[trigger] candidate_ok(alg, links, s, dist1, u, heap1[k]) by {
            if k < heap0.len() {
                assert(heap1[k] == heap0[k]);
                assert(candidate_ok(alg, links, s, dist0, u, heap0[k]));
                let n = heap0[k].node@;
                if n == y {
                    lemma_not_better_past(alg, heap0[k].value, dist0[y], cand);
                }
            } else {
                assert(heap1[k] == heap1.last());
            }
        }
        assert forall|x: Seq<char>| #[trigger] settled.contains(x) implies settled_ok(alg, links, s, dist1, x) by {
            assert(settled_ok(alg, links, s, dist0, x));
            assert(x != y);
        }
        assert forall|x: Seq<char>, j: int, y2: Seq<char>|
            #[trigger] joins(links[j], x, y2) && settled.contains(x) && 0 <= j < links.len() && (x != v || covered(links, x, j, y2, done2))
            implies relaxed_at(alg, links, dist1, x, j, y2) by {
            assert(relaxed_at(alg, links, dist0, x, j, y2));
            assert(x != y);
            let ext = extend(alg, dist0[x], links[j]);
            if y2 == y {
                if dist0.dom().contains(y) {
                    lemma_not_better_past(alg, ext, dist0[y], cand);
                }
            }
        }
        assert forall|x: Seq<char>| #[trigger] dist1.dom().contains(x) implies settled.contains(x) || in_heap(heap1, x, dist1[x]) by {
            if x == y {
                assert(heap1[heap1.len() - 1] == heap1.last());
            } else if !settled.contains(x) {
                assert(dist0.dom().contains(x));
                assert(in_heap(heap0, x, dist0[x]));
                let k = choose|k: int| 0 <= k < heap0.len() && (#[trigger] heap0[k]).node@ == x && heap0[k].value == dist0[x];
                assert(heap1[k] == heap0[k]);
            }
        }
        assert forall|k: int| 0 <= k < heap1.len() implies below_settled(alg, dist1, settled, (#[trigger] heap1[k]).value) by {
            if k < heap0.len() {
                assert(heap1[k] == heap0[k]);
                assert(below_settled(alg, dist0, settled, heap0[k].value));
                assert forall|x: Seq<char>| #[trigger] settled.contains(x) implies !better(alg, heap1[k].value, dist1[x]) by {
                    assert(x != y);
                }
            } else {
                assert(heap1[k] == heap1.last());
                assert forall|x: Seq<char>| #[trigger] settled.contains(x) implies !better(alg, heap1[k].value, dist1[x]) by {
                    assert(x != y);
                    lemma_not_better_trans(alg, cand, c, dist0[x]);
                }
            }
        }
        assert forall|x: Seq<char>| #[trigger] settled.contains(x) implies !better(alg, c, dist1[x]) by {
            assert(x != y);
        }
    }
}

/// Crossings covered so far, extended by the links just relaxed.
proof fn lemma_cover_step(
    alg: RoutingAlgorithm,
    links: Seq<HyphaeLink>,
    s: Seq<char>,
    t: Seq<char>,
    u: Set<Seq<char>>,
    dist: Map<Seq<char>, u64>,
    heap: Seq<Candidate>,
    settled: Set<Seq<char>>,
    v: Seq<char>,
    done2: int,
)
    requires
        search_inv(alg, links, s, t, u, dist, heap, settled, v, done2),
        0 <= done2,
        forall|i: int, y: Seq<char>|
            #[trigger] joins(links[i], v, y) && 0 <= i < links.len() && covered(links, v, i, y, done2 + 1)
                && !covered(links, v, i, y, done2) ==> relaxed_at(alg, links, dist, v, i, y),
    ensures
        search_inv(alg, links, s, t, u, dist, heap, settled, v, done2 + 1),
{
    assert forall|x: Seq<char>, i: int, y: Seq<char>|
        #[trigger] joins(links[i], x, y) && settled.contains(x) && 0 <= i < links.len() && (x != v || covered(links, x, i, y, done2 + 1))
        implies relaxed_at(alg, links, dist, x, i, y) by {
        if x == v && !covered(links, x, i, y, done2) {
        }
    }
}

fn start_of(alg: RoutingAlgorithm) -> (r: u64)
    ensures
        r == start_value(alg),
{
    match alg {
        RoutingAlgorithm::ShortestPath => 0,
        RoutingAlgorithm::MostReliable => UNIT,
        RoutingAlgorithm::WidestPath => u64::MAX,
    }
}

fn extend_by(alg: RoutingAlgorithm, v: u64, l: &HyphaeLink) -> (r: u64)
    ensures
        r == extend(alg, v, *l),
{
    match alg {
        RoutingAlgorithm::ShortestPath => v.saturating_add(l.latency),
        RoutingAlgorithm::MostReliable => {
            let r = l.reliability();
            proof {
                lemma_scaled_le(v, r);
            }
            assert(v as u128 * r as u128 <= u64::MAX as u128 * UNIT as u128) by (nonlinear_arith)
                requires
                    r <= UNIT,
            ;
            ((v as u128 * r as u128) / (UNIT as u128)) as u64
        },
        RoutingAlgorithm::WidestPath => if v <= l.bandwidth {
            v
        } else {
            l.bandwidth
        },
    }
}

fn is_better(alg: RoutingAlgorithm, a: u64, b: u64) -> (r: bool)
    ensures
        r == better(alg, a, b),
{
    match alg {
        RoutingAlgorithm::ShortestPath => a < b,
        _ => a > b,
    }
}

/// Index of the first waiting candidate with the best value.
fn best_index(heap: &Vec<Candidate>, alg: RoutingAlgorithm) -> (m: usize)
    requires
        heap.len() > 0,
    ensures
        m < heap.len(),
        forall|k: int| 0 <= k < heap.len() ==> !better(alg, (#[trigger] heap@[k]).value, heap@[m as int].value),
{
    let mut m: usize = 0;
    let mut i: usize = 1;
    while i < heap.len()
        invariant
            heap.len() > 0,
            m < heap.len(),
            1 <= i <= heap.len(),
            forall|k: int| 0 <= k < i ==> !better(alg, (#[trigger] heap@[k]).value, heap@[m as int].value),
        decreases heap.len() - i,
    {
        if is_better(alg, heap[i].value, heap[m].value) {
            m = i;
        }
        i = i + 1;
    }
    m
}

/// Offers node `y`, reached by extending the walk `path` across link `i`
/// to a value of `cand`; it is taken when it beats what is known of `y`.
fn offer(
    alg: RoutingAlgorithm,
    dist: &mut DistTable,
    heap: &mut Vec<Candidate>,
    y: &String,
    cand: u64,
    path: &Vec<String>,
    edges: Ghost<Seq<int>>,
    i: usize,
) -> (improved: bool)
    requires
        old(dist).wf(),
    ensures
        final(dist).wf(),
        improved == (!old(dist).map@.dom().contains(y@) || better(alg, cand, old(dist).map@[y@])),
        improved ==> final(dist).map@ == old(dist).map@.insert(y@, cand),
        improved ==> final(heap)@.len() == old(heap)@.len() + 1,
        improved ==> final(heap)@.drop_last() == old(heap)@,
        improved ==> final(heap)@.last().node@ == y@,
        improved ==> final(heap)@.last().value == cand,
        improved ==> id_views(final(heap)@.last().path@) == id_views(path@).push(y@),
        improved ==> final(heap)@.last().edges@ == edges@.push(i as int),
        !improved ==> final(dist).map@ == old(dist).map@,
        !improved ==> final(heap)@ == old(heap)@,
{
    let improved = match dist.get(y.as_str()) {
        Some(d) => is_better(alg, cand, d),
        None => true,
    };
    if improved {
        dist.set(y, cand);
        let mut p = path.clone();
        p.push(y.clone());
        proof {
            assert(id_views(p@) =~= id_views(path@).push(y@)) by {
                assert forall|k: int| 0 <= k < path@.len() implies p@[k]@ == path@[k]@ by {
                    assert(cloned::<String>(path@[k], p@[k]));
                }
            }
        }
        heap.push(Candidate { node: y.clone(), value: cand, path: p, edges: Ghost(edges@.push(i as int)) });
        proof {
            assert(heap@.drop_last() =~= old(heap)@);
        }
    }
    improved
}

/// At most the first `m` entries of `s`.
pub open spec fn first_at_most<A>(s: Seq<A>, m: nat) -> Seq<A> {
    if s.len() <= m {
        s
    } else {
        s.take(m as int)
    }
}

/// The completed paths of a depth-first search that extends the simple
/// path `path` towards `target`, in the order the search meets them.  It
/// stops at `target`; otherwise it tries the links in order, each from the
/// last node to its other end (a link is tried in each direction that
/// starts at the last node), skipping nodes already on the path.  `bound`
/// exceeds the length of every simple path the search can build.
pub open spec fn dfs_order(
    links: Seq<HyphaeLink>,
    path: Seq<Seq<char>>,
    target: Seq<char>,
    bound: nat,
) -> Seq<Seq<Seq<char>>>
    decreases bound - path.len(), links.len() + 1,
{
    if path.len() == 0 {
        Seq::empty()
    } else if path[path.len() - 1] == target {
        seq![path]
    } else {
        dfs_links(links, path, target, bound, links.len())
    }
}

/// The completed paths found through the first `i` links out of the last
/// node of `path`.
pub open spec fn dfs_links(
    links: Seq<HyphaeLink>,
    path: Seq<Seq<char>>,
    target: Seq<char>,
    bound: nat,
    i: nat,
) -> Seq<Seq<Seq<char>>>
    decreases bound - path.len(), i,
{
    if i == 0 || path.len() >= bound || i > links.len() || path.len() == 0 {
        Seq::empty()
    } else {
        let l = links[i - 1];
        let x = path[path.len() - 1];
        let forward = if l.from@ == x && !path.contains(l.to@) {
            dfs_order(links, path.push(l.to@), target, bound)
        } else {
            Seq::empty()
        };
        let backward = if l.to@ == x && !path.contains(l.from@) {
            dfs_order(links, path.push(l.from@), target, bound)
        } else {
            Seq::empty()
        };
        dfs_links(links, path, target, bound, (i - 1) as nat) + forward + backward
    }
}

/// The simple paths from `a` to `b` in the order a depth-first search
/// from `a` meets them.
pub open spec fn simple_paths_in_order(links: Seq<HyphaeLink>, a: Seq<char>, b: Seq<char>) -> Seq<Seq<Seq<char>>> {
    dfs_order(links, seq![a], b, universe(links, a).len() + 1)
}

/// Every path the depth-first search completes extends the path it started
/// from.
proof fn lemma_dfs_order_extends(links: Seq<HyphaeLink>, path: Seq<Seq<char>>, target: Seq<char>, bound: nat)
    ensures
        forall|k: int|
            0 <= k < dfs_order(links, path, target, bound).len() ==> path.is_prefix_of(
                #[trigger] dfs_order(links, path, target, bound)[k],
            ),
    decreases bound - path.len(), links.len() + 1,
{
    if path.len() == 0 {
    } else if path[path.len() - 1] == target {
        assert(dfs_order(links, path, target, bound) == seq![path]);
        assert(path.subrange(0, path.len() as int) =~= path);
        assert(path.is_prefix_of(dfs_order(links, path, target, bound)[0]));
    } else {
        assert(dfs_order(links, path, target, bound) == dfs_links(links, path, target, bound, links.len()));
        lemma_dfs_links_extends(links, path, target, bound, links.len());
    }
}

proof fn lemma_dfs_links_extends(
    links: Seq<HyphaeLink>,
    path: Seq<Seq<char>>,
    target: Seq<char>,
    bound: nat,
    i: nat,
)
    ensures
        forall|k: int|
            0 <= k < dfs_links(links, path, target, bound, i).len() ==> path.is_prefix_of(
                #[trigger] dfs_links(links, path, target, bound, i)[k],
            ),
    decreases bound - path.len(), i,
{
    if i == 0 || path.len() >= bound || i > links.len() || path.len() == 0 {
    } else {
        let l = links[i - 1];
        let x = path[path.len() - 1];
        lemma_dfs_links_extends(links, path, target, bound, (i - 1) as nat);
        let before = dfs_links(links, path, target, bound, (i - 1) as nat);
        let forward = if l.from@ == x && !path.contains(l.to@) {
            dfs_order(links, path.push(l.to@), target, bound)
        } else {
            Seq::empty()
        };
        let backward = if l.to@ == x && !path.contains(l.from@) {
            dfs_order(links, path.push(l.from@), target, bound)
        } else {
            Seq::empty()
        };
        if l.from@ == x && !path.contains(l.to@) {
            lemma_dfs_order_extends(links, path.push(l.to@), target, bound);
            assert forall|k: int| 0 <= k < forward.len() implies path.is_prefix_of(#[trigger] forward[k]) by {
                let q = forward[k];
                assert(path.push(l.to@).is_prefix_of(q));
                assert(q.subrange(0, path.len() as int) =~= path) by {
                    assert forall|j: int| 0 <= j < path.len() implies q[j] == path[j] by {
                        assert(q.subrange(0, path.len() as int + 1)[j] == path.push(l.to@)[j]);
                    }
                }
            }
        }
        if l.to@ == x && !path.contains(l.from@) {
            lemma_dfs_order_extends(links, path.push(l.from@), target, bound);
            assert forall|k: int| 0 <= k < backward.len() implies path.is_prefix_of(#[trigger] backward[k]) by {
                let q = backward[k];
                assert(path.push(l.from@).is_prefix_of(q));
                assert(q.subrange(0, path.len() as int) =~= path) by {
                    assert forall|j: int| 0 <= j < path.len() implies q[j] == path[j] by {
                        assert(q.subrange(0, path.len() as int + 1)[j] == path.push(l.from@)[j]);
                    }
                }
            }
        }
        let all = before + forward + backward;
        assert(dfs_links(links, path, target, bound, i) == all);
        assert forall|k: int| 0 <= k < all.len() implies path.is_prefix_of(#[trigger] all[k]) by {
            if k < before.len() {
                assert(all[k] == before[k]);
            } else if k < before.len() + forward.len() {
                assert(all[k] == forward[k - before.len()]);
            } else {
                assert(all[k] == backward[k - before.len() - forward.len()]);
            }
        }
    }
}

/// A path that starts with `path` and then `y` has `y` right after `path`.
proof fn lemma_next_after_prefix(path: Seq<Seq<char>>, y: Seq<char>, q: Seq<Seq<char>>)
    requires
        path.push(y).is_prefix_of(q),
    ensures
        q.len() > path.len(),
        q[path.len() as int] == y,
{
    assert(q.subrange(0, path.len() as int + 1)[path.len() as int] == path.push(y)[path.len() as int]);
}

proof fn lemma_dfs_order_distinct(links: Seq<HyphaeLink>, path: Seq<Seq<char>>, target: Seq<char>, bound: nat)
    requires
        no_parallel_links(links),
    ensures
        dfs_order(links, path, target, bound).no_duplicates(),
    decreases bound - path.len(), links.len() + 1,
{
    if path.len() == 0 {
    } else if path[path.len() - 1] == target {
        assert(dfs_order(links, path, target, bound) == seq![path]);
    } else {
        assert(dfs_order(links, path, target, bound) == dfs_links(links, path, target, bound, links.len()));
        lemma_dfs_links_distinct(links, path, target, bound, links.len());
    }
}

/// The paths found through the first `i` links out of the last node are
/// distinct, and each continues past `path` to a node one of those links
/// reaches.
proof fn lemma_dfs_links_distinct(
    links: Seq<HyphaeLink>,
    path: Seq<Seq<char>>,
    target: Seq<char>,
    bound: nat,
    i: nat,
)
    requires
        no_parallel_links(links),
    ensures
        dfs_links(links, path, target, bound, i).no_duplicates(),
        forall|k: int|
            0 <= k < dfs_links(links, path, target, bound, i).len() ==> {
                let q = #[trigger] dfs_links(links, path, target, bound, i)[k];
                &&& q.len() > path.len()
                &&& exists|j: int| 0 <= j < i && joins(links[j], path[path.len() - 1], q[path.len() as int])
            },
    decreases bound - path.len(), i,
{
    if i == 0 || path.len() >= bound || i > links.len() || path.len() == 0 {
    } else {
        let n = path.len() as int;
        let l = links[i - 1];
        let x = path[n - 1];
        lemma_dfs_links_distinct(links, path, target, bound, (i - 1) as nat);
        let before = dfs_links(links, path, target, bound, (i - 1) as nat);
        let fc = l.from@ == x && !path.contains(l.to@);
        let bc = l.to@ == x && !path.contains(l.from@);
        let forward = if fc {
            dfs_order(links, path.push(l.to@), target, bound)
        } else {
            Seq::empty()
        };
        let backward = if bc {
            dfs_order(links, path.push(l.from@), target, bound)
        } else {
            Seq::empty()
        };
        if fc {
            lemma_dfs_order_distinct(links, path.push(l.to@), target, bound);
            lemma_dfs_order_extends(links, path.push(l.to@), target, bound);
            assert forall|k: int| 0 <= k < forward.len() implies (#[trigger] forward[k]).len() > n && forward[k][n]
                == l.to@ by {
                lemma_next_after_prefix(path, l.to@, forward[k]);
            }
        }
        if bc {
            lemma_dfs_order_distinct(links, path.push(l.from@), target, bound);
            lemma_dfs_order_extends(links, path.push(l.from@), target, bound);
            assert forall|k: int| 0 <= k < backward.len() implies (#[trigger] backward[k]).len() > n && backward[k][n]
                == l.from@ by {
                lemma_next_after_prefix(path, l.from@, backward[k]);
            }
        }
        if fc && bc {
            assert(path[n - 1] == l.to@);
            assert(path.contains(l.to@));
        }
        let all = before + forward + backward;
        assert(dfs_links(links, path, target, bound, i) == all);
        assert forall|a: int, b: int| 0 <= a < all.len() && 0 <= b < all.len() && a != b implies all[a] != all[b] by {
            if a < before.len() && b < before.len() {
                assert(all[a] == before[a] && all[b] == before[b]);
            } else if a >= before.len() && b >= before.len() {
                let fa = a - before.len();
                let fb = b - before.len();
                if fa < forward.len() && fb < forward.len() {
                    assert(all[a] == forward[fa] && all[b] == forward[fb]);
                } else if fa >= forward.len() && fb >= forward.len() {
                    assert(all[a] == backward[fa - forward.len()] && all[b] == backward[fb - forward.len()]);
                }
            } else {
                let (p, o) = if a < before.len() { (a, b) } else { (b, a) };
                let q = before[p];
                assert(all[p] == q);
                let j = choose|j: int| 0 <= j < i - 1 && joins(links[j], x, q[n]);
                assert(!joins(links[j], links[i - 1].from@, links[i - 1].to@));
                let o2 = o - before.len();
                if o2 < forward.len() {
                    assert(all[o] == forward[o2]);
                } else {
                    assert(all[o] == backward[o2 - forward.len()]);
                }
            }
        }
        assert forall|k: int| 0 <= k < all.len() implies {
            let q = #[trigger] all[k];
            &&& q.len() > path.len()
            &&& exists|j: int| 0 <= j < i && joins(links[j], path[path.len() - 1], q[path.len() as int])
        } by {
            if k < before.len() {
                assert(all[k] == before[k]);
                let j = choose|j: int| 0 <= j < i - 1 && joins(links[j], x, before[k][n]);
                assert(joins(links[j], x, all[k][n]));
            } else if k < before.len() + forward.len() {
                assert(all[k] == forward[k - before.len()]);
                assert(joins(links[i - 1], x, all[k][n]));
            } else {
                assert(all[k] == backward[k - before.len() - forward.len()]);
                assert(joins(links[i - 1], x, all[k][n]));
            }
        }
    }
}

/// Without parallel links the depth-first search meets each simple path
/// once: the simple paths in search order are distinct, and so are the
/// paths of the routes `find_all_paths` returns.
pub proof fn lemma_simple_paths_distinct(links: Seq<HyphaeLink>, a: Seq<char>, b: Seq<char>, m: nat)
    requires
        no_parallel_links(links),
    ensures
        simple_paths_in_order(links, a, b).no_duplicates(),
        first_at_most(simple_paths_in_order(links, a, b), m).no_duplicates(),
{
    let s = simple_paths_in_order(links, a, b);
    lemma_dfs_order_distinct(links, seq![a], b, universe(links, a).len() + 1);
    assert forall|x: int, y: int|
        0 <= x < first_at_most(s, m).len() && 0 <= y < first_at_most(s, m).len() && x != y implies first_at_most(s, m)[x]
        != first_at_most(s, m)[y] by {
        assert(first_at_most(s, m)[x] == s[x] && first_at_most(s, m)[y] == s[y]);
    }
}

/// The shortest-path score of a walk is its summed latency: a walk of one
/// link scores that link's latency, nothing scores zero, and the score of two
/// walks one after the other is the sum of their scores (capped at
/// `u64::MAX`).
pub proof fn lemma_shortest_score_is_summed_latency(links: Seq<HyphaeLink>, e1: Seq<int>, e2: Seq<int>, i: int)
    ensures
        walk_value(RoutingAlgorithm::ShortestPath, links, Seq::empty()) == 0,
        walk_value(RoutingAlgorithm::ShortestPath, links, seq![i]) == links[i].latency,
        walk_value(RoutingAlgorithm::ShortestPath, links, e1 + e2) == if walk_value(
            RoutingAlgorithm::ShortestPath,
            links,
            e1,
        ) + walk_value(RoutingAlgorithm::ShortestPath, links, e2) > u64::MAX {
            u64::MAX as int
        } else {
            walk_value(RoutingAlgorithm::ShortestPath, links, e1) + walk_value(RoutingAlgorithm::ShortestPath, links, e2)
        },
    decreases e2.len(),
{
    let alg = RoutingAlgorithm::ShortestPath;
    assert(seq![i].drop_last() =~= Seq::<int>::empty());
    if e2.len() == 0 {
        assert(e1 + e2 =~= e1);
    } else {
        lemma_shortest_score_is_summed_latency(links, e1, e2.drop_last(), i);
        assert((e1 + e2).drop_last() =~= e1 + e2.drop_last());
        assert((e1 + e2).last() == e2.last());
    }
}

/// The widest-path score of a walk is its narrowest link: a walk of one link
/// scores that link's bandwidth, nothing scores `u64::MAX`, and two walks one
/// after the other score the smaller of their scores.
pub proof fn lemma_widest_score_is_narrowest_link(links: Seq<HyphaeLink>, e1: Seq<int>, e2: Seq<int>, i: int)
    ensures
        walk_value(RoutingAlgorithm::WidestPath, links, Seq::empty()) == u64::MAX,
        walk_value(RoutingAlgorithm::WidestPath, links, seq![i]) == links[i].bandwidth,
        walk_value(RoutingAlgorithm::WidestPath, links, e1 + e2) == if walk_value(
            RoutingAlgorithm::WidestPath,
            links,
            e1,
        ) <= walk_value(RoutingAlgorithm::WidestPath, links, e2) {
            walk_value(RoutingAlgorithm::WidestPath, links, e1)
        } else {
            walk_value(RoutingAlgorithm::WidestPath, links, e2)
        },
    decreases e2.len(),
{
    assert(seq![i].drop_last() =~= Seq::<int>::empty());
    if e2.len() == 0 {
        assert(e1 + e2 =~= e1);
        lemma_walk_value_bound(RoutingAlgorithm::WidestPath, links, e1);
    } else {
        lemma_widest_score_is_narrowest_link(links, e1, e2.drop_last(), i);
        assert((e1 + e2).drop_last() =~= e1 + e2.drop_last());
        assert((e1 + e2).last() == e2.last());
    }
}

/// The latency of a route is additive: following a path to its last node
/// and then a second path from there takes the latencies of both (capped at
/// `u64::MAX`), and a path of one node takes none.
pub proof fn lemma_path_latency_adds(links: Seq<HyphaeLink>, p1: Seq<Seq<char>>, p2: Seq<Seq<char>>)
    requires
        p1.len() >= 1,
        p2.len() >= 1,
        p1[p1.len() - 1] == p2[0],
    ensures
        path_latency(links, seq![p2[0]]) == 0,
        path_latency(links, p1 + p2.drop_first()) == if path_latency(links, p1) + path_latency(links, p2) > u64::MAX {
            u64::MAX as int
        } else {
            path_latency(links, p1) + path_latency(links, p2)
        },
    decreases p2.len(),
{
    let q = p1 + p2.drop_first();
    if p2.len() == 1 {
        assert(q =~= p1);
    } else {
        let p2s = p2.drop_last();
        lemma_path_latency_adds(links, p1, p2s);
        assert(q.drop_last() =~= p1 + p2s.drop_first());
        assert(q[q.len() - 1] == p2[p2.len() - 1]);
        assert(q[q.len() - 2] == p2[p2.len() - 2]);
    }
}

/// Division rounds down: `x / d` is the largest `q` with `q * d <= x`.
proof fn lemma_floor_div(x: int, d: int)
    requires
        x >= 0,
        d > 0,
    ensures
        (x / d) * d <= x < (x / d + 1) * d,
{
    vstd::arithmetic::div_mod::lemma_fundamental_div_mod(x, d);
    vstd::arithmetic::div_mod::lemma_mod_bound(x, d);
    let q = x / d;
    assert(q * d == d * q && (q + 1) * d == d * q + d) by (nonlinear_arith);
}

/// The most-reliable score of a walk is the product of its links'
/// reliabilities, rounded down after each link: nothing scores certainty, a
/// walk of one link scores that link's reliability, and one more link
/// multiplies the score by its reliability (in units of 10^-18), rounded
/// down.
pub proof fn lemma_reliable_score_is_product(links: Seq<HyphaeLink>, e: Seq<int>, i: int)
    ensures
        walk_value(RoutingAlgorithm::MostReliable, links, Seq::empty()) == UNIT,
        walk_value(RoutingAlgorithm::MostReliable, links, seq![i]) == links[i].spec_reliability(),
        walk_value(RoutingAlgorithm::MostReliable, links, e.push(i)) * UNIT <= walk_value(
            RoutingAlgorithm::MostReliable,
            links,
            e,
        ) * links[i].spec_reliability(),
        walk_value(RoutingAlgorithm::MostReliable, links, e) * links[i].spec_reliability() < (walk_value(
            RoutingAlgorithm::MostReliable,
            links,
            e.push(i),
        ) + 1) * UNIT,
{
    let alg = RoutingAlgorithm::MostReliable;
    let r = links[i].spec_reliability();
    assert(r <= UNIT);
    assert(seq![i].drop_last() =~= Seq::<int>::empty());
    assert(e.push(i).drop_last() =~= e);
    vstd::arithmetic::div_mod::lemma_div_multiples_vanish(r as int, UNIT as int);
    assert((UNIT as int) * r == r * (UNIT as int)) by (nonlinear_arith);
    let w = walk_value(alg, links, e);
    lemma_scaled_le(w, r);
    assert(w * r >= 0) by (nonlinear_arith);
    lemma_floor_div(w * r, UNIT as int);
}

/// The reliability of a route is the product of its steps' reliabilities,
/// rounded down after each step: a path of one node is certain, and one more
/// step multiplies by the reliability of the first link joining its two
/// nodes (certainty without one), rounded down.
pub proof fn lemma_path_reliability_is_product(links: Seq<HyphaeLink>, p: Seq<Seq<char>>, x: Seq<char>)
    requires
        p.len() >= 1,
    ensures
        path_reliability(links, seq![x]) == UNIT,
        ({
            let r = match first_link(links, p[p.len() - 1], x) {
                Some(l) => l.spec_reliability(),
                None => UNIT,
            };
            &&& path_reliability(links, p.push(x)) * UNIT <= path_reliability(links, p) * r
            &&& path_reliability(links, p) * r < (path_reliability(links, p.push(x)) + 1) * UNIT
        }),
{
    let q = p.push(x);
    assert(q.drop_last() =~= p);
    assert(q[q.len() - 2] == p[p.len() - 1]);
    let r = step_reliability(links, p[p.len() - 1], x);
    assert(r <= UNIT);
    let w = path_reliability(links, p);
    lemma_scaled_le(w, r);
    assert(w * r >= 0) by (nonlinear_arith);
    lemma_floor_div(w * r, UNIT as int);
}

/// One step of a route takes the latency of the first link joining its two
/// nodes (none without one).
pub proof fn lemma_step_path_latency(links: Seq<HyphaeLink>, a: Seq<char>, b: Seq<char>)
    ensures
        path_latency(links, seq![a, b]) == match first_link(links, a, b) {
            Some(l) => l.latency,
            None => 0u64,
        },
{
    let p = seq![a, b];
    assert(p.drop_last() =~= seq![a]);
    assert(p[0] == a && p[1] == b);
    assert(path_latency(links, seq![a]) == 0);
}

/// The link found between two nodes is the first one joining them, in
/// either direction, and none is found only when no link joins them.
pub proof fn lemma_first_link_is_first_joining(links: Seq<HyphaeLink>, a: Seq<char>, b: Seq<char>)
    ensures
        match first_link(links, a, b) {
            Some(l) => exists|i: int|
                0 <= i < links.len() && links[i] == l && joins(l, a, b) && forall|j: int|
                    0 <= j < i ==> !joins(#[trigger] links[j], a, b),
            None => forall|i: int| 0 <= i < links.len() ==> !joins(#[trigger] links[i], a, b),
        },
    decreases links.len(),
{
    if links.len() > 0 {
        let rest = links.drop_first();
        lemma_first_link_is_first_joining(rest, a, b);
        if joins(links[0], a, b) {
            assert(links[0] == links[0]);
        } else {
            match first_link(rest, a, b) {
                Some(l) => {
                    let i = choose|i: int|
                        0 <= i < rest.len() && rest[i] == l && joins(l, a, b) && forall|j: int|
                            0 <= j < i ==> !joins(#[trigger] rest[j], a, b);
                    assert(links[i + 1] == l);
                    assert forall|j: int| 0 <= j < i + 1 implies !joins(#[trigger] links[j], a, b) by {
                        if j > 0 {
                            assert(links[j] == rest[j - 1]);
                        }
                    }
                },
                None => {
                    assert forall|i: int| 0 <= i < links.len() implies !joins(#[trigger] links[i], a, b) by {
                        if i > 0 {
                            assert(links[i] == rest[i - 1]);
                        }
                    }
                },
            }
        }
    }
}

/// The links the most-reliable search crosses are exactly those of
/// reliability above zero, in their order: every such link is crossed, even
/// after a dead one, and no dead link is.
pub proof fn lemma_carrying_is_live_links(links: Seq<HyphaeLink>)
    ensures
        carrying(links) == links.filter(|l: HyphaeLink| l.spec_reliability() > 0),
        forall|i: int| 0 <= i < links.len() && (#[trigger] links[i]).spec_reliability() > 0 ==> carrying(links).contains(links[i]),
        forall|k: int|
            0 <= k < carrying(links).len() ==> (#[trigger] carrying(links)[k]).spec_reliability() > 0 && links.contains(
                carrying(links)[k],
            ),
    decreases links.len(),
{
    reveal(Seq::filter);
    let pred = |l: HyphaeLink| l.spec_reliability() > 0;
    if links.len() > 0 {
        lemma_carrying_is_live_links(links.drop_last());
    }
    assert(carrying(links) == links.filter(pred));
    assert forall|i: int| 0 <= i < links.len() && (#[trigger] links[i]).spec_reliability() > 0 implies carrying(links).contains(links[i]) by {
        links.lemma_filter_contains(pred, i);
    }
    assert forall|k: int| 0 <= k < carrying(links).len() implies (#[trigger] carrying(links)[k]).spec_reliability() > 0
        && links.contains(carrying(links)[k]) by {
        links.lemma_filter_pred(pred, k);
        if links.len() > 0 && k < carrying(links.drop_last()).len() {
            assert(carrying(links)[k] == carrying(links.drop_last())[k]);
            let j = links.drop_last().index_of(carrying(links)[k]);
            assert(links[j] == links.drop_last()[j]);
        } else if links.len() > 0 {
            assert(links[links.len() - 1] == links.last());
        }
    }
}

/// When every link can carry a message, the most-reliable search crosses
/// every link: it finds a route exactly when the target can be reached.
pub proof fn lemma_all_links_carry(links: Seq<HyphaeLink>)
    requires
        forall|i: int| 0 <= i < links.len() ==> (#[trigger] links[i]).spec_reliability() > 0,
    ensures
        carrying(links) == links,
        search_links(RoutingAlgorithm::MostReliable, links) == links,
    decreases links.len(),
{
    if links.len() > 0 {
        let front = links.drop_last();
        assert forall|i: int| 0 <= i < front.len() implies (#[trigger] front[i]).spec_reliability() > 0 by {
            assert(front[i] == links[i]);
        }
        lemma_all_links_carry(front);
        assert(links.last() == links[links.len() - 1]);
        assert(front.push(links.last()) =~= links);
    }
}

/// Cutting at `m`, then appending and cutting again, is appending and
/// cutting once.
proof fn lemma_first_at_most_append<A>(x: Seq<A>, c: Seq<A>, m: nat)
    ensures
        first_at_most(first_at_most(x, m) + c, m) == first_at_most(x + c, m),
{
    if x.len() > m {
        assert((x.take(m as int) + c).take(m as int) =~= (x + c).take(m as int));
    }
}

/// The value of a walk that starts with value `v` and crosses `edges`.
pub open spec fn fold_from(alg: RoutingAlgorithm, links: Seq<HyphaeLink>, v: u64, edges: Seq<int>) -> u64
    decreases edges.len(),
{
    if edges.len() == 0 {
        v
    } else {
        extend(alg, fold_from(alg, links, v, edges.drop_last()), links[edges.last()])
    }
}

proof fn lemma_fold_start(alg: RoutingAlgorithm, links: Seq<HyphaeLink>, edges: Seq<int>)
    ensures
        walk_value(alg, links, edges) == fold_from(alg, links, start_value(alg), edges),
    decreases edges.len(),
{
    if edges.len() > 0 {
        lemma_fold_start(alg, links, edges.drop_last());
    }
}

proof fn lemma_fold_concat(alg: RoutingAlgorithm, links: Seq<HyphaeLink>, v: u64, a: Seq<int>, b: Seq<int>)
    ensures
        fold_from(alg, links, v, a + b) == fold_from(alg, links, fold_from(alg, links, v, a), b),
    decreases b.len(),
{
    if b.len() == 0 {
        assert(a + b =~= a);
    } else {
        assert((a + b).drop_last() =~= a + b.drop_last());
        assert((a + b).last() == b.last());
        lemma_fold_concat(alg, links, v, a, b.drop_last());
    }
}

proof fn lemma_fold_not_better(alg: RoutingAlgorithm, links: Seq<HyphaeLink>, v: u64, c: Seq<int>)
    ensures
        !better(alg, fold_from(alg, links, v, c), v),
    decreases c.len(),
{
    if c.len() > 0 {
        lemma_fold_not_better(alg, links, v, c.drop_last());
        let w = fold_from(alg, links, v, c.drop_last());
        lemma_extend_not_better(alg, w, links[c.last()]);
        lemma_not_better_trans(alg, extend(alg, w, links[c.last()]), w, v);
    }
}

proof fn lemma_fold_monotone(alg: RoutingAlgorithm, links: Seq<HyphaeLink>, x: u64, y: u64, b: Seq<int>)
    requires
        !better(alg, x, y),
    ensures
        !better(alg, fold_from(alg, links, x, b), fold_from(alg, links, y, b)),
    decreases b.len(),
{
    if b.len() > 0 {
        lemma_fold_monotone(alg, links, x, y, b.drop_last());
        lemma_extend_monotone(
            alg,
            fold_from(alg, links, x, b.drop_last()),
            fold_from(alg, links, y, b.drop_last()),
            links[b.last()],
        );
    }
}

/// Cutting a cycle out of a walk: the nodes up to the first visit of a
/// repeated node, then those after its second visit.
pub open spec fn cut_cycle<A>(s: Seq<A>, i: int, j: int) -> Seq<A> {
    s.take(i + 1) + s.skip(j + 1)
}

/// Cutting out a cycle from node `i` back to the same node at `j` leaves a
/// walk between the same nodes that is at least as good.
#[verifier::spinoff_prover]
proof fn lemma_cut_cycle(
    alg: RoutingAlgorithm,
    links: Seq<HyphaeLink>,
    mask: Seq<bool>,
    nodes: Seq<Seq<char>>,
    edges: Seq<int>,
    a: Seq<char>,
    b: Seq<char>,
    i: int,
    j: int,
)
    requires
        is_walk_between(links, mask, nodes, edges, a, b),
        0 <= i < j < nodes.len(),
        nodes[i] == nodes[j],
    ensures
        is_walk_between(links, mask, cut_cycle(nodes, i, j), edges.take(i) + edges.skip(j), a, b),
        !better(alg, walk_value(alg, links, edges), walk_value(alg, links, edges.take(i) + edges.skip(j))),
{
    let n2 = cut_cycle(nodes, i, j);
    let e2 = edges.take(i) + edges.skip(j);
    assert(n2.len() == e2.len() + 1);
    assert forall|k: int| 0 <= k < e2.len() implies 0 <= #[trigger] e2[k] < links.len() && joins(
        links[e2[k]],
        n2[k],
        n2[k + 1],
    ) by {
        if k < i {
            assert(e2[k] == edges[k]);
            assert(n2[k] == nodes[k] && n2[k + 1] == nodes[k + 1]);
        } else {
            assert(e2[k] == edges[k - i + j]);
            assert(n2[k + 1] == nodes[k - i + j + 1]);
            if k == i {
                assert(n2[k] == nodes[i]);
            } else {
                assert(n2[k] == nodes[k - i + j]);
            }
        }
    }
    assert forall|k: int| 0 <= k < e2.len() implies #[trigger] mask[e2[k]] by {
        if k < i {
            assert(e2[k] == edges[k]);
        } else {
            assert(e2[k] == edges[k - i + j]);
        }
    }
    if j + 1 < nodes.len() {
        assert(n2[n2.len() - 1] == nodes[nodes.len() - 1]);
    } else {
        assert(n2[n2.len() - 1] == nodes[i]);
    }
    assert(is_walk_between(links, mask, n2, e2, a, b));
    let p = edges.take(i);
    let c = edges.subrange(i, j);
    let q = edges.skip(j);
    assert(edges =~= p + c + q);
    let st = start_value(alg);
    lemma_fold_start(alg, links, edges);
    lemma_fold_start(alg, links, e2);
    lemma_fold_concat(alg, links, st, p + c, q);
    lemma_fold_concat(alg, links, st, p, c);
    lemma_fold_concat(alg, links, st, p, q);
    let vp = fold_from(alg, links, st, p);
    lemma_fold_not_better(alg, links, vp, c);
    lemma_fold_monotone(alg, links, fold_from(alg, links, vp, c), vp, q);
}

/// The first repeated node of a walk: positions `i < j` holding the same
/// node, or none when no node repeats.
fn find_repeat(p: &Vec<String>) -> (r: Option<(usize, usize)>)
    ensures
        match r {
            Some((i, j)) => i < j < p.len() && p@[i as int]@ == p@[j as int]@,
            None => id_views(p@).no_duplicates(),
        },
{
    let mut i: usize = 0;
    while i < p.len()
        invariant
            i <= p.len(),
            forall|a: int, b: int| 0 <= a < i && a < b < p.len() ==> p@[a]@ != p@[b]@,
        decreases p.len() - i,
    {
        let mut j: usize = i + 1;
        while j < p.len()
            invariant
                i < p.len(),
                i + 1 <= j <= p.len(),
                forall|a: int, b: int| 0 <= a < i && a < b < p.len() ==> p@[a]@ != p@[b]@,
                forall|b: int| i < b < j ==> p@[i as int]@ != p@[b]@,
            decreases p.len() - j,
        {
            if same_id(p[i].as_str(), p[j].as_str()) {
                return Some((i, j));
            }
            j = j + 1;
        }
        i = i + 1;
    }
    proof {
        let v = id_views(p@);
        assert forall|a: int, b: int| 0 <= a < v.len() && 0 <= b < v.len() && a != b implies v[a] != v[b] by {
            if a < b {
                assert(p@[a]@ != p@[b]@);
            } else {
                assert(p@[b]@ != p@[a]@);
            }
        }
    }
    None
}

/// The walk with the nodes after position `i` up to position `j` left out.
fn cut_walk(p: &Vec<String>, i: usize, j: usize) -> (r: Vec<String>)
    requires
        i < j < p.len(),
    ensures
        id_views(r@) == cut_cycle(id_views(p@), i as int, j as int),
        r.len() < p.len(),
{
    let mut r: Vec<String> = Vec::new();
    let mut k: usize = 0;
    while k <= i
        invariant
            k <= i + 1,
            i < j < p.len(),
            r@ == p@.take(k as int),
        decreases i + 1 - k,
    {
        r.push(p[k].clone());
        assert(r@ =~= p@.take(k + 1));
        k = k + 1;
    }
    let mut k: usize = j + 1;
    while k < p.len()
        invariant
            j + 1 <= k <= p.len(),
            i < j < p.len(),
            r@ == p@.take(i + 1) + p@.subrange(j + 1, k as int),
        decreases p.len() - k,
    {
        r.push(p[k].clone());
        assert(r@ =~= p@.take(i + 1) + p@.subrange(j + 1, k + 1));
        k = k + 1;
    }
    assert(r@ =~= cut_cycle(p@, i as int, j as int));
    assert(id_views(r@) =~= cut_cycle(id_views(p@), i as int, j as int));
    r
}

/// Routes kept as a prefix keep their paths.
proof fn lemma_prefix_contains(a: Seq<Route>, b: Seq<Route>, p: Seq<Seq<char>>)
    requires
        a.len() <= b.len(),
        b.take(a.len() as int) == a,
        route_paths(a).contains(p),
    ensures
        route_paths(b).contains(p),
{
    let k = route_paths(a).index_of(p);
    assert(b[k] == a[k]);
    assert(route_paths(b)[k] == p);
}

proof fn lemma_take_chain(a: Seq<Route>, b: Seq<Route>, c: Seq<Route>, d: Seq<Route>)
    requires
        a.len() <= b.len() <= c.len() <= d.len(),
        b.take(a.len() as int) == a,
        c.take(b.len() as int) == b,
        d.take(c.len() as int) == c,
    ensures
        d.take(a.len() as int) == a,
{
    assert forall|k: int| 0 <= k < a.len() implies d[k] == a[k] by {
        assert(d[k] == c[k]);
        assert(c[k] == b[k]);
        assert(b[k] == a[k]);
    }
    assert(d.take(a.len() as int) =~= a);
}

/// Router that finds paths through a mesh.
pub struct MeshRouter<'a> {
    mesh: &'a Mesh,
}

impl<'a> MeshRouter<'a> {
    /// The mesh this router works on.
    pub closed spec fn spec_mesh(&self) -> Mesh {
        *self.mesh
    }

    pub fn new(mesh: &'a Mesh) -> (r: Self)
        ensures
            r.spec_mesh() == *mesh,
    {
        MeshRouter { mesh }
    }

    /// Find a route using the specified algorithm.
    pub fn route(&self, from: &str, to: &str, algorithm: &RoutingAlgorithm) -> (r: Route)
        ensures
            is_route_for(*algorithm, self.spec_mesh().links@, from@, to@, r),
    {
        match algorithm {
            RoutingAlgorithm::ShortestPath => self.shortest_path(from, to),
            RoutingAlgorithm::MostReliable => self.most_reliable_path(from, to),
            RoutingAlgorithm::WidestPath => self.widest_path(from, to),
        }
    }

    /// Shortest path by latency using Dijkstra.
    pub fn shortest_path(&self, from: &str, to: &str) -> (r: Route)
        ensures
            is_route_for(RoutingAlgorithm::ShortestPath, self.spec_mesh().links@, from@, to@, r),
    {
        assert(search_links(RoutingAlgorithm::ShortestPath, self.spec_mesh().links@) == self.spec_mesh().links@);
        match Self::best_path(&self.mesh.links, from, to, RoutingAlgorithm::ShortestPath) {
            Some((path, v)) => {
                let r = self.build_route(path);
                assert(is_best_walk(RoutingAlgorithm::ShortestPath, self.spec_mesh().links@, id_views(r.path@), v, from@, to@));
                r
            },
            None => Route::none(),
        }
    }

    /// Most-reliable path: maximize the product of link reliabilities.
    pub fn most_reliable_path(&self, from: &str, to: &str) -> (r: Route)
        ensures
            is_route_for(RoutingAlgorithm::MostReliable, self.spec_mesh().links@, from@, to@, r),
    {
        let carriers = carrying_links(&self.mesh.links);
        match Self::best_path(&carriers, from, to, RoutingAlgorithm::MostReliable) {
            Some((path, reliability)) => {
                let latency = self.path_latency_of(&path);
                Route::new(path, latency, reliability)
            },
            None => Route::none(),
        }
    }

    /// Widest path: maximize the minimum bandwidth along the path (maximin).
    pub fn widest_path(&self, from: &str, to: &str) -> (r: Route)
        ensures
            is_route_for(RoutingAlgorithm::WidestPath, self.spec_mesh().links@, from@, to@, r),
    {
        assert(search_links(RoutingAlgorithm::WidestPath, self.spec_mesh().links@) == self.spec_mesh().links@);
        match Self::best_path(&self.mesh.links, from, to, RoutingAlgorithm::WidestPath) {
            Some((path, v)) => {
                let r = self.build_route(path);
                assert(is_best_walk(RoutingAlgorithm::WidestPath, self.spec_mesh().links@, id_views(r.path@), v, from@, to@));
                r
            },
            None => Route::none(),
        }
    }

    /// The route along a path, with its latency and reliability taken step
    /// by step from the first link joining each pair of nodes.
    fn build_route(&self, path: Vec<String>) -> (r: Route)
        requires
            path@.len() >= 1,
        ensures
            describes_path(self.spec_mesh().links@, r),
            r.path@ == path@,
    {
        let latency = self.path_latency_of(&path);
        let reliability = self.path_reliability_of(&path);
        Route::new(path, latency, reliability)
    }

    /// Find all simple paths from `from` to `to`, at most `max_paths` of
    /// them.  Used for multi-path routing and spore broadcast.
    pub fn find_all_paths(&self, from: &str, to: &str, max_paths: usize) -> (r: Vec<Route>)
        ensures
            is_path_search(self.spec_mesh().links@, from@, to@, max_paths as nat, r@),
            route_paths(r@) == first_at_most(
                simple_paths_in_order(self.spec_mesh().links@, from@, to@),
                max_paths as nat,
            ),
            r@.map_values(|x: Route| route_view(x)) == searched_routes(self.spec_mesh().links@, from@, to@, max_paths as nat),
    {
        let mut results: Vec<Route> = Vec::new();
        let mut path: Vec<String> = Vec::new();
        path.push(from.to_owned());
        proof {
            lemma_universe(self.spec_mesh().links@, from@);
            assert(id_views(path@) =~= seq![from@]);
            assert(route_paths(results@) =~= Seq::<Seq<Seq<char>>>::empty());
        }
        let ghost found = dfs_order(
            self.spec_mesh().links@,
            seq![from@],
            to@,
            (universe(self.spec_mesh().links@, from@).len() + 1) as nat,
        );
        self.dfs_all(&mut path, to, &mut results, max_paths, Ghost(from@));
        proof {
            assert(Seq::<Seq<Seq<char>>>::empty() + found =~= found);
            assert forall|p: Seq<Seq<char>>| #[trigger] is_simple_route(self.spec_mesh().links@, p, from@, to@) && results.len() < max_paths
                implies route_paths(results@).contains(p) by {
                assert(seq![from@].is_prefix_of(p));
            }
            lemma_search_views(self.spec_mesh().links@, from@, to@, max_paths as nat, results@);
        }
        results
    }

    /// Extends the simple path `path` in every way that reaches `target`
    /// without repeating a node, recording each completed path, until
    /// `max_paths` routes are recorded.
    #[verifier::rlimit(40)]
    fn dfs_all(
        &self,
        path: &mut Vec<String>,
        target: &str,
        results: &mut Vec<Route>,
        max_paths: usize,
        source: Ghost<Seq<char>>,
    )
        requires
            is_trail_from(self.spec_mesh().links@, id_views(old(path)@), source@),
            forall|k: int| 0 <= k < old(path)@.len() ==> universe(self.spec_mesh().links@, source@).contains(#[trigger] old(path)@[k]@),
        ensures
            final(path)@ == old(path)@,
            old(results).len() >= max_paths ==> final(results)@ == old(results)@,
            old(results).len() < max_paths ==> final(results).len() <= max_paths,
            old(results).len() <= final(results).len(),
            final(results)@.take(old(results).len() as int) == old(results)@,
            forall|k: int|
                old(results).len() <= k < final(results).len() ==> id_views(old(path)@).is_prefix_of(
                    id_views((#[trigger] final(results)@[k]).path@),
                ),
            forall|k: int|
                old(results).len() <= k < final(results).len() ==> is_simple_route(self.spec_mesh().links@, id_views((#[trigger] final(results)@[k]).path@), source@, target@)
                    && describes_path(self.spec_mesh().links@, final(results)@[k]),
            final(results).len() < max_paths ==> forall|p: Seq<Seq<char>>|
                #[trigger] is_simple_route(self.spec_mesh().links@, p, source@, target@) && id_views(old(path)@).is_prefix_of(p)
                    ==> route_paths(final(results)@).contains(p),
            old(results).len() <= max_paths ==> route_paths(final(results)@) == first_at_most(
                route_paths(old(results)@) + dfs_order(self.spec_mesh().links@, id_views(old(path)@), target@, (universe(self.spec_mesh().links@, source@).len() + 1) as nat),
                max_paths as nat,
            ),
        decreases universe(self.spec_mesh().links@, source@).len() - old(path)@.len(), 2nat,
    {
        let ghost lv = self.spec_mesh().links@;
        let ghost bound = (universe(lv, source@).len() + 1) as nat;
        if results.len() >= max_paths {
            assert(results@.take(results.len() as int) =~= results@);
            proof {
                if results.len() == max_paths {
                    let e = dfs_order(lv, id_views(path@), target@, bound);
                    assert((route_paths(results@) + e).take(max_paths as int) =~= route_paths(results@));
                }
            }
            return;
        }
        let n = path.len();
        if same_id(path[n - 1].as_str(), target) {
            let route = self.build_route(path.clone());
            proof {
                assert(id_views(route.path@) =~= id_views(path@)) by {
                    assert forall|k: int| 0 <= k < path@.len() implies route.path@[k]@ == path@[k]@ by {
                        assert(cloned::<String>(path@[k], route.path@[k]));
                    }
                }
            }
            let ghost old_results = results@;
            results.push(route);
            proof {
                assert(results@.take(old_results.len() as int) =~= old_results);
                assert(route_paths(results@)[old_results.len() as int] == id_views(route.path@));
                assert forall|p: Seq<Seq<char>>|
                    #[trigger] is_simple_route(lv, p, source@, target@) && id_views(path@).is_prefix_of(p)
                    implies route_paths(results@).contains(p) by {
                    assert(p[n - 1] == id_views(path@)[n - 1]);
                    if p.len() > n {
                        assert(p[n - 1] == p[p.len() - 1]);
                    }
                    assert(p =~= id_views(path@));
                }
                assert(route_paths(results@) =~= route_paths(old_results) + seq![id_views(path@)]);
                assert(id_views(path@).subrange(0, id_views(path@).len() as int) =~= id_views(path@));
            }
            return;
        }
        let ghost p0 = id_views(path@);
        let ghost r0 = results@;
        self.dfs_extend(path, target, results, max_paths, source);
        proof {
            let ext = dfs_links(lv, p0, target@, bound, lv.len());
            lemma_dfs_links_extends(lv, p0, target@, bound, lv.len());
            let all = route_paths(r0) + ext;
            assert forall|k: int| r0.len() <= k < results.len() implies p0.is_prefix_of(
                id_views((#[trigger] results@[k]).path@),
            ) by {
                assert(route_paths(results@)[k] == id_views(results@[k].path@));
                assert(route_paths(results@)[k] == all[k]);
                assert(all[k] == ext[k - r0.len()]);
            }
        }
    }

    /// Tries every link out of the last node of `path`, in link order.
    fn dfs_extend(
        &self,
        path: &mut Vec<String>,
        target: &str,
        results: &mut Vec<Route>,
        max_paths: usize,
        source: Ghost<Seq<char>>,
    )
        requires
            is_trail_from(self.spec_mesh().links@, id_views(old(path)@), source@),
            old(path)@[old(path)@.len() - 1]@ != target@,
            old(results).len() <= max_paths,
            forall|k: int| 0 <= k < old(path)@.len() ==> universe(self.spec_mesh().links@, source@).contains(#[trigger] old(path)@[k]@),
        ensures
            final(path)@ == old(path)@,
            final(results).len() <= max_paths,
            old(results).len() <= final(results).len(),
            final(results)@.take(old(results).len() as int) == old(results)@,
            forall|k: int|
                old(results).len() <= k < final(results).len() ==> is_simple_route(self.spec_mesh().links@, id_views((#[trigger] final(results)@[k]).path@), source@, target@)
                    && describes_path(self.spec_mesh().links@, final(results)@[k]),
            final(results).len() < max_paths ==> forall|p: Seq<Seq<char>>|
                #[trigger] is_simple_route(self.spec_mesh().links@, p, source@, target@) && id_views(old(path)@).is_prefix_of(p)
                    ==> route_paths(final(results)@).contains(p),
            route_paths(final(results)@) == first_at_most(
                route_paths(old(results)@) + dfs_links(
                    self.spec_mesh().links@,
                    id_views(old(path)@),
                    target@,
                    (universe(self.spec_mesh().links@, source@).len() + 1) as nat,
                    self.spec_mesh().links@.len(),
                ),
                max_paths as nat,
            ),
        decreases universe(self.spec_mesh().links@, source@).len() - old(path)@.len(), 1nat,
    {
        let ghost lv = self.spec_mesh().links@;
        let ghost u = universe(lv, source@);
        let ghost bound = (u.len() + 1) as nat;
        let ghost pv = id_views(path@);
        let ghost r0 = route_paths(old(results)@);
        let n = path.len();
        let current = path[n - 1].clone();
        let links = &self.mesh.links;
        let mut i: usize = 0;
        assert(results@.take(results.len() as int) =~= results@);
        proof {
            lemma_universe(lv, source@);
            crate::walk::lemma_distinct_within(pv, u);
            assert(r0 + dfs_links(lv, pv, target@, bound, 0) =~= r0);
        }
        while i < links.len()
            invariant
                i <= lv.len(),
                pv == id_views(path@),
                bound == (u.len() + 1) as nat,
                pv.len() < bound,
                r0 == route_paths(old(results)@),
                route_paths(results@) == first_at_most(r0 + dfs_links(lv, pv, target@, bound, i as nat), max_paths as nat),
                links == &self.mesh.links,
                lv == links@,
                u == universe(lv, source@),
                path@ == old(path)@,
                n == path@.len(),
                n >= 1,
                current@ == path@[n - 1]@,
                current@ != target@,
                is_trail_from(lv, id_views(path@), source@),
                forall|k: int| 0 <= k < path@.len() ==> u.contains(#[trigger] path@[k]@),
                results.len() <= max_paths,
                old(results).len() <= results.len(),
                results@.take(old(results).len() as int) == old(results)@,
                forall|k: int|
                    old(results).len() <= k < results.len() ==> is_simple_route(lv, id_views((#[trigger] results@[k]).path@), source@, target@)
                        && describes_path(lv, results@[k]),
                results.len() < max_paths ==> forall|p: Seq<Seq<char>>|
                    #[trigger] is_simple_route(lv, p, source@, target@) && id_views(path@).is_prefix_of(p)
                        && p.len() > n && (exists|j: int| 0 <= j < i && #[trigger] joins(lv[j], current@, p[n as int]))
                        ==> route_paths(results@).contains(p),
            decreases lv.len() - i,
        {
            let l = &links[i];
            let ghost results_i = results@;
            let ghost li = dfs_links(lv, pv, target@, bound, i as nat);
            let ghost fwd = if l.from@ == pv[pv.len() - 1] && !pv.contains(l.to@) {
                dfs_order(lv, pv.push(l.to@), target@, bound)
            } else {
                Seq::empty()
            };
            let ghost bwd = if l.to@ == pv[pv.len() - 1] && !pv.contains(l.from@) {
                dfs_order(lv, pv.push(l.from@), target@, bound)
            } else {
                Seq::empty()
            };
            assert(pv[pv.len() - 1] == current@);
            if l.from == current {
                self.dfs_step(path, &l.to, target, results, max_paths, source, Ghost(i as int));
                proof {
                    lemma_first_at_most_append(r0 + li, fwd, max_paths as nat);
                }
            } else {
                assert(r0 + li + fwd =~= r0 + li);
            }
            let ghost results_mid = results@;
            assert(route_paths(results_mid) == first_at_most(r0 + li + fwd, max_paths as nat));
            if l.to == current {
                self.dfs_step(path, &l.from, target, results, max_paths, source, Ghost(i as int));
                proof {
                    lemma_first_at_most_append(r0 + li + fwd, bwd, max_paths as nat);
                }
            } else {
                assert(r0 + li + fwd + bwd =~= r0 + li + fwd);
            }
            proof {
                assert(dfs_links(lv, pv, target@, bound, (i + 1) as nat) == li + fwd + bwd);
                assert(r0 + li + fwd + bwd =~= r0 + (li + fwd + bwd));
                lemma_take_chain(old(results)@, results_i, results_mid, results@);
                assert forall|k: int| old(results).len() <= k < results.len() implies is_simple_route(
                    lv,
                    id_views((#[trigger] results@[k]).path@),
                    source@,
                    target@,
                ) && describes_path(lv, results@[k]) by {
                    if k < results_mid.len() {
                        assert(results@[k] == results@.take(results_mid.len() as int)[k]);
                        if k < results_i.len() {
                            assert(results_mid[k] == results_mid.take(results_i.len() as int)[k]);
                        }
                    }
                }
                assert forall|p: Seq<Seq<char>>|
                    #[trigger] is_simple_route(lv, p, source@, target@) && id_views(path@).is_prefix_of(p)
                        && p.len() > n && (exists|j: int| 0 <= j < i + 1 && #[trigger] joins(lv[j], current@, p[n as int]))
                        && results.len() < max_paths
                    implies route_paths(results@).contains(p) by {
                    let j = choose|j: int| 0 <= j < i + 1 && #[trigger] joins(lv[j], current@, p[n as int]);
                    if j < i {
                        assert(route_paths(results_i).contains(p));
                        lemma_prefix_contains(results_i, results_mid, p);
                        lemma_prefix_contains(results_mid, results@, p);
                    } else if l.from@ == current@ && l.to@ == p[n as int] {
                        lemma_prefix_contains(results_mid, results@, p);
                    }
                }
            }
            i = i + 1;
        }
        proof {
            assert(i as nat == lv.len());
            assert(pv == id_views(old(path)@));
            assert(lv == self.spec_mesh().links@);
            assert forall|p: Seq<Seq<char>>|
                #[trigger] is_simple_route(lv, p, source@, target@) && id_views(old(path)@).is_prefix_of(p)
                    && results.len() < max_paths
                implies route_paths(results@).contains(p) by {
                assert(p[n - 1] == id_views(path@)[n - 1]);
                if p.len() == n {
                    assert(p[p.len() - 1] == current@);
                }
                assert(p.len() > n);
                assert(adjacent(lv, p[n - 1], p[n as int]));
                let j = choose|j: int| 0 <= j < lv.len() && #[trigger] joins(lv[j], p[n - 1], p[n as int]);
                assert(joins(lv[j], current@, p[n as int]));
            }
        }
    }

    /// One step of the search: extends `path` by `next` when `next` is not
    /// on it yet, explores, and takes `next` off again.
    fn dfs_step(
        &self,
        path: &mut Vec<String>,
        next: &String,
        target: &str,
        results: &mut Vec<Route>,
        max_paths: usize,
        source: Ghost<Seq<char>>,
        link: Ghost<int>,
    )
        requires
            0 <= link@ < self.spec_mesh().links@.len(),
            joins(self.spec_mesh().links@[link@], old(path)@[old(path)@.len() - 1]@, next@),
            is_trail_from(self.spec_mesh().links@, id_views(old(path)@), source@),
            old(results).len() <= max_paths,
            forall|k: int| 0 <= k < old(path)@.len() ==> universe(self.spec_mesh().links@, source@).contains(#[trigger] old(path)@[k]@),
        ensures
            final(path)@ == old(path)@,
            final(results).len() <= max_paths,
            old(results).len() <= final(results).len(),
            final(results)@.take(old(results).len() as int) == old(results)@,
            forall|k: int|
                old(results).len() <= k < final(results).len() ==> is_simple_route(self.spec_mesh().links@, id_views((#[trigger] final(results)@[k]).path@), source@, target@)
                    && describes_path(self.spec_mesh().links@, final(results)@[k]),
            final(results).len() < max_paths ==> forall|p: Seq<Seq<char>>|
                #[trigger] is_simple_route(self.spec_mesh().links@, p, source@, target@) && id_views(old(path)@).is_prefix_of(p)
                    && p.len() > old(path)@.len() && p[old(path)@.len() as int] == next@
                    ==> route_paths(final(results)@).contains(p),
            route_paths(final(results)@) == first_at_most(
                route_paths(old(results)@) + if id_views(old(path)@).contains(next@) {
                    Seq::empty()
                } else {
                    dfs_order(self.spec_mesh().links@, id_views(old(path)@).push(next@), target@, (universe(self.spec_mesh().links@, source@).len() + 1) as nat)
                },
                max_paths as nat,
            ),
        decreases universe(self.spec_mesh().links@, source@).len() - old(path)@.len(), 0nat,
    {
        let ghost lv = self.spec_mesh().links@;
        let ghost u = universe(lv, source@);
        let ghost p0 = path@;
        let n = path.len();
        match find_id(path, next.as_str()) {
            Some(k) => {
                proof {
                    assert forall|p: Seq<Seq<char>>|
                        #[trigger] is_simple_route(lv, p, source@, target@) && id_views(p0).is_prefix_of(p)
                            && p.len() > n && p[n as int] == next@
                        implies false by {
                        assert(p[k as int] == id_views(p0)[k as int]);
                    }
                    assert(results@.take(results.len() as int) =~= results@);
                    assert(id_views(p0)[k as int] == next@);
                    assert(route_paths(results@) + Seq::<Seq<Seq<char>>>::empty() =~= route_paths(results@));
                }
            },
            None => {
                assert(!id_views(p0).contains(next@)) by {
                    if id_views(p0).contains(next@) {
                        let j = id_views(p0).index_of(next@);
                        assert(p0[j]@ == next@);
                    }
                }
                proof {
                    lemma_universe(lv, source@);
                    let l = lv[link@];
                    assert(u.contains(next@)) by {
                        assert(l.from@ == next@ || l.to@ == next@);
                    }
                }
                path.push(next.clone());
                proof {
                    assert(id_views(path@) =~= id_views(p0).push(next@));
                    let q = id_views(path@);
                    assert(adjacent(lv, q[n - 1], q[n as int]));
                    assert forall|k: int| 0 <= k < q.len() - 1 implies adjacent(lv, #[trigger] q[k], q[k + 1]) by {
                        if k < n - 1 {
                            assert(q[k] == id_views(p0)[k]);
                            assert(q[k + 1] == id_views(p0)[k + 1]);
                        }
                    }
                    assert(is_trail_from(lv, q, source@));
                    crate::walk::lemma_distinct_within(q, u);
                }
                self.dfs_all(path, target, results, max_paths, source);
                path.pop();
                proof {
                    assert(path@ =~= p0);
                    assert forall|p: Seq<Seq<char>>|
                        #[trigger] is_simple_route(lv, p, source@, target@) && id_views(p0).is_prefix_of(p)
                            && p.len() > n && p[n as int] == next@ && results.len() < max_paths
                        implies route_paths(results@).contains(p) by {
                        assert(id_views(p0).push(next@).is_prefix_of(p)) by {
                            assert(p.subrange(0, n + 1) =~= id_views(p0).push(next@));
                        }
                    }
                }
            },
        }
    }

    /// A best walk without repeated nodes: cycles are cut out of the walk
    /// Dijkstra's search returns, which leaves it no worse.
    fn best_path(links: &Vec<HyphaeLink>, from: &str, to: &str, alg: RoutingAlgorithm) -> (r: Option<(Vec<String>, u64)>)
        ensures
            match r {
                Some(p) => is_best_walk(alg, links@, id_views(p.0@), p.1, from@, to@)
                    && id_views(p.0@).no_duplicates(),
                None => no_walk(links@, from@, to@),
            },
    {
        match Self::best_walk(links, from, to, alg) {
            None => None,
            Some((path, v)) => {
                let ghost lv = links@;
                let mut p = path;
                loop
                    invariant
                        lv == links@,
                        is_best_walk(alg, lv, id_views(p@), v, from@, to@),
                    decreases p.len(),
                {
                    match find_repeat(&p) {
                        None => {
                            return Some((p, v));
                        },
                        Some((i, j)) => {
                            let q = cut_walk(&p, i, j);
                            proof {
                                let full = full_mask(lv.len());
                                let ns = id_views(p@);
                                let es = choose|es: Seq<int>|
                                    #[trigger] is_walk_between(lv, full, ns, es, from@, to@) && walk_value(alg, lv, es) == v;
                                assert(ns[i as int] == ns[j as int]);
                                lemma_cut_cycle(alg, lv, full, ns, es, from@, to@, i as int, j as int);
                                let e2 = es.take(i as int) + es.skip(j as int);
                                assert(!better(alg, walk_value(alg, lv, e2), v));
                                assert(is_walk_between(lv, full, id_views(q@), e2, from@, to@));
                                assert(walk_value(alg, lv, e2) == v);
                            }
                            p = q;
                        },
                    }
                }
            },
        }
    }

    /// Dijkstra's search over `links` from `from` for a best walk to `to`.
    /// Returns the walk's nodes and its value.
    fn best_walk(links: &Vec<HyphaeLink>, from: &str, to: &str, alg: RoutingAlgorithm) -> (r: Option<(Vec<String>, u64)>)
        ensures
            match r {
                Some(p) => is_best_walk(alg, links@, id_views(p.0@), p.1, from@, to@),
                None => no_walk(links@, from@, to@),
            },
    {
        let ghost lv = links@;
        let ghost s = from@;
        let ghost t = to@;
        let ghost u = universe(lv, s);
        proof {
            lemma_universe(lv, s);
        }
        let src = from.to_owned();
        let start = start_of(alg);
        let mut dist = DistTable::new();
        dist.set(&src, start);
        let mut first_path: Vec<String> = Vec::new();
        first_path.push(from.to_owned());
        let mut heap: Vec<Candidate> = Vec::new();
        heap.push(Candidate { node: src, value: start, path: first_path, edges: Ghost(Seq::empty()) });
        let ghost mut settled: Set<Seq<char>> = Set::empty();
        proof {
            lemma_walk_here(lv, full_mask(lv.len()), s);
            assert(id_views(first_path@) =~= seq![s]);
            assert(candidate_ok(alg, lv, s, dist.map@, u, heap@[0]));
            assert forall|x: Seq<char>| #[trigger] dist.map@.dom().contains(x) implies settled.contains(x) || in_heap(heap@, x, dist.map@[x]) by {
                assert(x == s);
                assert(heap@[0].node@ == s);
            }
        }
        while heap.len() > 0
            invariant
                lv == links@,
                u == universe(lv, s),
                s == from@,
                t == to@,
                dist.wf(),
                search_inv(alg, lv, s, t, u, dist.map@, heap@, settled, s, 2 * lv.len() as int),
            decreases u.difference(settled).len(), heap.len(),
        {
            let m = best_index(&heap, alg);
            let ghost before = heap@;
            let ghost settled0 = settled;
            let ghost dist0 = dist.map@;
            proof {
                assert(candidate_ok(alg, lv, s, dist0, u, before[m as int]));
            }
            let entry = heap.remove(m);
            if same_id(entry.node.as_str(), to) {
                proof {
                    lemma_pop_optimal(alg, lv, s, t, u, dist0, before, settled, s, m as int, t);
                    assert(is_walk_between(lv, full_mask(lv.len()), id_views(entry.path@), entry.edges@, s, t));
                }
                return Some((entry.path, entry.value));
            }
            let d = dist.get(entry.node.as_str()).unwrap();
            if is_better(alg, d, entry.value) {
                proof {
                    lemma_drop_stale(alg, lv, s, t, u, dist0, before, settled, s, m as int);
                }
                continue;
            }
            let ghost v = entry.node@;
            let ghost was_settled = settled.contains(v);
            proof {
                lemma_settle(alg, lv, s, t, u, dist0, before, settled, s, m as int);
                if !was_settled {
                    assert(u.contains(v));
                    u.lemma_set_insert_diff_decreases(settled, v);
                } else {
                    assert(settled.insert(v) =~= settled);
                }
                settled = settled.insert(v);
            }
            let ghost heap_len0 = heap.len();
            let mut i: usize = 0;
            while i < links.len()
                invariant
                    lv == links@,
                    u == universe(lv, s),
                    s == from@,
                    t == to@,
                    dist.wf(),
                    i <= lv.len(),
                    search_inv(alg, lv, s, t, u, dist.map@, heap@, settled, v, 2 * i as int),
                    settled.contains(v),
                    entry.node@ == v,
                    dist.map@[v] == entry.value,
                    below_settled(alg, dist.map@, settled, entry.value),
                    is_walk_between(lv, full_mask(lv.len()), id_views(entry.path@), entry.edges@, s, v),
                    walk_value(alg, lv, entry.edges@) == entry.value,
                    was_settled ==> settled == settled0,
                    was_settled ==> dist.map@ == dist0,
                    was_settled ==> heap.len() == heap_len0,
                    was_settled ==> search_inv(alg, lv, s, t, u, dist0, before, settled0, s, 2 * lv.len() as int),
                    !was_settled ==> u.difference(settled).len() < u.difference(settled0).len(),
                decreases lv.len() - i,
            {
                let l = &links[i];
                if l.from == entry.node {
                    let ghost d1 = dist.map@;
                    let ghost h1 = heap@;
                    let cand = extend_by(alg, entry.value, l);
                    let improved = offer(alg, &mut dist, &mut heap, &l.to, cand, &entry.path, entry.edges, i);
                    proof {
                        assert(joins(lv[i as int], v, l.to@));
                        lemma_offer_step(alg, lv, s, t, u, d1, h1, dist.map@, heap@, settled, v, 2 * i as int, entry.value, id_views(entry.path@), entry.edges@, i as int, l.to@, improved);
                        if was_settled {
                            assert(settled0.contains(v));
                            assert(covered(lv, v, i as int, l.to@, 2 * lv.len() as int));
                            assert(relaxed_at(alg, lv, dist0, v, i as int, l.to@));
                            assert(!improved);
                        }
                    }
                }
                proof {
                    lemma_cover_step(alg, lv, s, t, u, dist.map@, heap@, settled, v, 2 * i as int);
                }
                if l.to == entry.node {
                    let ghost d1 = dist.map@;
                    let ghost h1 = heap@;
                    let cand = extend_by(alg, entry.value, l);
                    let improved = offer(alg, &mut dist, &mut heap, &l.from, cand, &entry.path, entry.edges, i);
                    proof {
                        assert(joins(lv[i as int], v, l.from@));
                        lemma_offer_step(alg, lv, s, t, u, d1, h1, dist.map@, heap@, settled, v, 2 * i + 1, entry.value, id_views(entry.path@), entry.edges@, i as int, l.from@, improved);
                        if was_settled {
                            assert(settled0.contains(v));
                            assert(covered(lv, v, i as int, l.from@, 2 * lv.len() as int));
                            assert(relaxed_at(alg, lv, dist0, v, i as int, l.from@));
                            assert(!improved);
                        }
                    }
                }
                proof {
                    lemma_cover_step(alg, lv, s, t, u, dist.map@, heap@, settled, v, 2 * i + 1);
                }
                i = i + 1;
            }
            proof {
                assert(2 * i as int == 2 * lv.len() as int);
                assert forall|x: Seq<char>, j: int, y: Seq<char>|
                    #[trigger] joins(lv[j], x, y) && settled.contains(x) && 0 <= j < lv.len() && (x != s || covered(lv, x, j, y, 2 * lv.len() as int))
                    implies relaxed_at(alg, lv, dist.map@, x, j, y) by {
                    assert(covered(lv, x, j, y, 2 * lv.len() as int));
                }
            }
        }
        proof {
            assert forall|nodes: Seq<Seq<char>>, edges: Seq<int>|
                #[trigger] is_walk_between(lv, full_mask(lv.len()), nodes, edges, s, t) implies false by {
                lemma_walk_covered(alg, lv, s, t, u, dist.map@, heap@, settled, s, nodes, edges, t);
            }
        }
        None
    }

    /// The first link joining the two nodes, in either direction.
    pub fn find_link(&self, a: &str, b: &str) -> (r: Option<&HyphaeLink>)
        ensures
            match r {
                Some(l) => first_link(self.spec_mesh().links@, a@, b@) == Some(*l),
                None => first_link(self.spec_mesh().links@, a@, b@) is None,
            },
    {
        let links = &self.mesh.links;
        let mut i: usize = 0;
        assert(links@.skip(0) =~= links@);
        while i < links.len()
            invariant
                i <= links.len(),
                links == &self.mesh.links,
                first_link(links@, a@, b@) == first_link(links@.skip(i as int), a@, b@),
            decreases links.len() - i,
        {
            assert(links@.skip(i as int)[0] == links@[i as int]);
            let l = &links[i];
            if (same_id(l.from.as_str(), a) && same_id(l.to.as_str(), b)) || (same_id(
                l.from.as_str(),
                b,
            ) && same_id(l.to.as_str(), a)) {
                return Some(l);
            }
            assert(links@.skip(i as int).drop_first() =~= links@.skip(i + 1));
            i = i + 1;
        }
        None
    }

    /// The summed step latencies along a path.
    fn path_latency_of(&self, path: &Vec<String>) -> (r: u64)
        ensures
            r == path_latency(self.spec_mesh().links@, id_views(path@)),
    {
        let mut total: u64 = 0;
        let mut i: usize = 1;
        while i < path.len()
            invariant
                1 <= i,
                i <= path.len() || path.len() == 0,
                path.len() > 0 ==> total == path_latency(
                    self.spec_mesh().links@,
                    id_views(path@).take(i as int),
                ),
                path.len() == 0 ==> total == 0,
            decreases path.len() - i,
        {
            let ghost pre = id_views(path@).take(i as int);
            let ghost post = id_views(path@).take(i + 1);
            assert(post.drop_last() =~= pre);
            let step = match self.find_link(path[i - 1].as_str(), path[i].as_str()) {
                Some(l) => l.latency,
                None => 0,
            };
            assert(post[post.len() - 2] == path@[i - 1]@);
            assert(post[post.len() - 1] == path@[i as int]@);
            total = total.saturating_add(step);
            i = i + 1;
        }
        if path.len() > 0 {
            assert(id_views(path@).take(path.len() as int) =~= id_views(path@));
        } else {
            assert(id_views(path@).len() == 0);
        }
        total
    }

    /// The product of the step reliabilities along a path.
    fn path_reliability_of(&self, path: &Vec<String>) -> (r: u64)
        ensures
            r == path_reliability(self.spec_mesh().links@, id_views(path@)),
    {
        let mut acc: u64 = UNIT;
        let mut i: usize = 1;
        while i < path.len()
            invariant
                1 <= i,
                i <= path.len() || path.len() == 0,
                path.len() > 0 ==> acc == path_reliability(
                    self.spec_mesh().links@,
                    id_views(path@).take(i as int),
                ),
                path.len() == 0 ==> acc == UNIT,
                acc <= UNIT,
            decreases path.len() - i,
        {
            let ghost pre = id_views(path@).take(i as int);
            let ghost post = id_views(path@).take(i + 1);
            assert(post.drop_last() =~= pre);
            let step = match self.find_link(path[i - 1].as_str(), path[i].as_str()) {
                Some(l) => l.reliability(),
                None => UNIT,
            };
            assert(post[post.len() - 2] == path@[i - 1]@);
            assert(post[post.len() - 1] == path@[i as int]@);
            assert(acc as int * step as int <= UNIT as int * UNIT as int) by (nonlinear_arith)
                requires
                    acc <= UNIT,
                    step <= UNIT,
            ;
            let prod: u128 = acc as u128 * step as u128;
            assert(prod / (UNIT as u128) <= UNIT) by (nonlinear_arith)
                requires
                    prod <= UNIT * UNIT,
            ;
            acc = (prod / (UNIT as u128)) as u64;
            i = i + 1;
        }
        if path.len() > 0 {
            assert(id_views(path@).take(path.len() as int) =~= id_views(path@));
        } else {
            assert(id_views(path@).len() == 0);
        }
        acc
    }
}

} // verus!
