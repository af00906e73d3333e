//! Mycorrhizal mesh topology: nodes connected by fungal hyphae links.
//!
//! In nature, mycorrhizal networks connect trees underground through fungal
//! hyphae, forming a resilient mesh that can reroute nutrients around damage.
//! This module models that topology for error-correcting message relay.
//!
//! Positions are fixed-point: one unit of distance is 1_000_000.
use vstd::prelude::*;
use crate::hyphae_link::HyphaeLink;
use crate::ident::{id_views, find_id, same_id};
use crate::walk::{
    joins, reachable, reach_set, explore, all_enabled, full_mask, lemma_connected_trans,
    lemma_connected_symm, lemma_walk_here, lemma_closed_set_holds_walk,
    is_walk_between,
};

verus! {

broadcast use vstd::seq_lib::group_seq_properties;

/// A node in the mycorrhizal mesh.
///
/// Hub nodes act as major relay points (like mother trees in a fungal network),
/// while leaf nodes are endpoints that originate or consume messages.
#[derive(Debug)]
pub struct MeshNode {
    pub id: String,
    pub is_hub: bool,
    /// Position in millionths of a unit.
    pub position: (i64, i64),
}

/// The squared Euclidean distance between two positions.
pub open spec fn squared_distance(p: (i64, i64), q: (i64, i64)) -> int {
    (p.0 - q.0) * (p.0 - q.0) + (p.1 - q.1) * (p.1 - q.1)
}

/// The largest `r` with `r * r <= n`.
fn floor_sqrt(n: u128) -> (r: u64)
    ensures
        r * r <= n < (r + 1) * (r + 1),
{
    let mut lo: u128 = 0;
    let mut hi: u128 = 0x1_0000_0000_0000_0000u128;
    assert(n < hi * hi) by (nonlinear_arith)
        requires
            n <= 0xffff_ffff_ffff_ffff_ffff_ffff_ffff_ffffu128,
            hi == 0x1_0000_0000_0000_0000u128,
    ;
    while lo + 1 < hi
        invariant
            lo < hi <= 0x1_0000_0000_0000_0000u128,
            lo * lo <= n,
            n < hi * hi,
        decreases hi - lo,
    {
        let mid = lo + (hi - lo) / 2;
        assert(mid * mid <= 0xffff_ffff_ffff_ffffu128 * 0xffff_ffff_ffff_ffffu128) by (nonlinear_arith)
            requires
                mid < 0x1_0000_0000_0000_0000u128,
        ;
        if mid * mid <= n {
            lo = mid;
        } else {
            hi = mid;
        }
    }
    lo as u64
}

/// Distance is symmetric, and zero from a node to its own position.
pub proof fn lemma_distance_symmetric(p: (i64, i64), q: (i64, i64))
    ensures
        squared_distance(p, q) == squared_distance(q, p),
        squared_distance(p, p) == 0,
{
    assert((p.0 - q.0) * (p.0 - q.0) == (q.0 - p.0) * (q.0 - p.0)) by (nonlinear_arith);
    assert((p.1 - q.1) * (p.1 - q.1) == (q.1 - p.1) * (q.1 - p.1)) by (nonlinear_arith);
}

impl MeshNode {
    pub fn new(id: &str, is_hub: bool, position: (i64, i64)) -> (r: Self)
        ensures
            r.id@ == id@,
            r.is_hub == is_hub,
            r.position == position,
    {
        MeshNode { id: id.to_owned(), is_hub, position }
    }

    /// Euclidean distance to another node, rounded down, in millionths.
    /// The distance must fit in a `u64`, which holds exactly when its square
    /// is below 2^128.
    pub fn distance_to(&self, other: &MeshNode) -> (r: u64)
        requires
            squared_distance(self.position, other.position) < 0x1_0000_0000_0000_0000_0000_0000_0000_0000,
        ensures
            r * r <= squared_distance(self.position, other.position) < (r + 1) * (r + 1),
    {
        let dx: i128 = self.position.0 as i128 - other.position.0 as i128;
        let dy: i128 = self.position.1 as i128 - other.position.1 as i128;
        let ax: u128 = if dx < 0 {
            (-dx) as u128
        } else {
            dx as u128
        };
        let ay: u128 = if dy < 0 {
            (-dy) as u128
        } else {
            dy as u128
        };
        assert(ax * ax <= 0xffff_ffff_ffff_ffffu128 * 0xffff_ffff_ffff_ffffu128) by (nonlinear_arith)
            requires
                ax <= 0xffff_ffff_ffff_ffffu128,
        ;
        assert(ay * ay <= 0xffff_ffff_ffff_ffffu128 * 0xffff_ffff_ffff_ffffu128) by (nonlinear_arith)
            requires
                ay <= 0xffff_ffff_ffff_ffffu128,
        ;
        assert(ax * ax == dx * dx) by (nonlinear_arith)
            requires
                ax == dx || ax == -dx,
        ;
        assert(ay * ay == dy * dy) by (nonlinear_arith)
            requires
                ay == dy || ay == -dy,
        ;
        floor_sqrt(ax * ax + ay * ay)
    }

    /// A field-by-field copy.
    pub(crate) fn duplicate(&self) -> (r: Self)
        ensures
            r == *self,
    {
        MeshNode { id: self.id.clone(), is_hub: self.is_hub, position: self.position }
    }
}

/// The identifiers of a sequence of nodes.
pub open spec fn node_ids(nodes: Seq<MeshNode>) -> Seq<Seq<char>> {
    nodes.map_values(|n: MeshNode| n.id@)
}

/// The first node carrying identifier `id`.
pub open spec fn first_node(nodes: Seq<MeshNode>, id: Seq<char>) -> Option<MeshNode>
    decreases nodes.len(),
{
    if nodes.len() == 0 {
        None
    } else if nodes[0].id@ == id {
        Some(nodes[0])
    } else {
        first_node(nodes.drop_first(), id)
    }
}

/// The hub nodes, in order.
pub open spec fn hub_seq(nodes: Seq<MeshNode>) -> Seq<MeshNode>
    decreases nodes.len(),
{
    if nodes.len() == 0 {
        Seq::empty()
    } else {
        let rest = hub_seq(nodes.drop_last());
        if nodes.last().is_hub {
            rest.push(nodes.last())
        } else {
            rest
        }
    }
}

/// The neighbours of `x`, one per link that touches it, in link order.
pub open spec fn neighbor_seq(links: Seq<HyphaeLink>, x: Seq<char>) -> Seq<Seq<char>>
    decreases links.len(),
{
    if links.len() == 0 {
        Seq::empty()
    } else {
        let rest = neighbor_seq(links.drop_last(), x);
        let l = links.last();
        if l.from@ == x {
            rest.push(l.to@)
        } else if l.to@ == x {
            rest.push(l.from@)
        } else {
            rest
        }
    }
}

/// The links that do not join `a` and `b`, in order.
pub open spec fn links_avoiding(links: Seq<HyphaeLink>, a: Seq<char>, b: Seq<char>) -> Seq<HyphaeLink>
    decreases links.len(),
{
    if links.len() == 0 {
        Seq::empty()
    } else {
        let rest = links_avoiding(links.drop_last(), a, b);
        if joins(links.last(), a, b) {
            rest
        } else {
            rest.push(links.last())
        }
    }
}

/// The adjacency list of `x`: for each link touching `x`, in link order, the
/// far endpoint and the link's index (a loop on `x` appears twice).
pub open spec fn adjacency_of(links: Seq<HyphaeLink>, x: Seq<char>) -> Seq<(Seq<char>, int)>
    decreases links.len(),
{
    if links.len() == 0 {
        Seq::empty()
    } else {
        let i = links.len() - 1;
        let l = links.last();
        let rest = adjacency_of(links.drop_last(), x);
        let r1 = if l.from@ == x {
            rest.push((l.to@, i))
        } else {
            rest
        };
        if l.to@ == x {
            r1.push((l.from@, i))
        } else {
            r1
        }
    }
}

/// Whether `x` is an endpoint of some link.
pub open spec fn is_endpoint(links: Seq<HyphaeLink>, x: Seq<char>) -> bool {
    exists|i: int| 0 <= i < links.len() && (#[trigger] links[i].from@ == x || links[i].to@ == x)
}

/// The view of an adjacency list.
pub open spec fn adjacency_view(v: Seq<(String, usize)>) -> Seq<(Seq<char>, int)> {
    v.map_values(|p: (String, usize)| (p.0@, p.1 as int))
}

/// Nodes that start a new connected component: none of the nodes before
/// them reaches them.
pub open spec fn is_component_start(nodes: Seq<MeshNode>, links: Seq<HyphaeLink>, i: int) -> bool {
    forall|j: int| 0 <= j < i ==> !reachable(links, nodes[j].id@, #[trigger] nodes[i].id@)
}

/// The number of connected components met by the nodes of the mesh.
pub open spec fn component_count(nodes: Seq<MeshNode>, links: Seq<HyphaeLink>) -> nat
    decreases nodes.len(),
{
    if nodes.len() == 0 {
        0
    } else {
        component_count(nodes.drop_last(), links) + if is_component_start(
            nodes,
            links,
            nodes.len() - 1,
        ) {
            1nat
        } else {
            0nat
        }
    }
}

/// Connected: as many identifiers are reached from the first node as there
/// are nodes (every mesh without nodes is connected).
pub open spec fn mesh_connected(nodes: Seq<MeshNode>, links: Seq<HyphaeLink>) -> bool {
    nodes.len() == 0 || reach_set(links, nodes[0].id@).len() == nodes.len()
}

/// The nodes not carrying identifier `id`, in order.
pub open spec fn nodes_without(nodes: Seq<MeshNode>, id: Seq<char>) -> Seq<MeshNode>
    decreases nodes.len(),
{
    if nodes.len() == 0 {
        Seq::empty()
    } else {
        let rest = nodes_without(nodes.drop_last(), id);
        if nodes.last().id@ == id {
            rest
        } else {
            rest.push(nodes.last())
        }
    }
}

/// The links not touching `id`, in order.
pub open spec fn links_without(links: Seq<HyphaeLink>, id: Seq<char>) -> Seq<HyphaeLink>
    decreases links.len(),
{
    if links.len() == 0 {
        Seq::empty()
    } else {
        let rest = links_without(links.drop_last(), id);
        if links.last().from@ == id || links.last().to@ == id {
            rest
        } else {
            rest.push(links.last())
        }
    }
}

/// A single mesh containing nodes and their hyphae links.
#[derive(Debug)]
pub struct Mesh {
    pub nodes: Vec<MeshNode>,
    pub links: Vec<HyphaeLink>,
}

impl Mesh {
    /// Connected: every node is found from the first one, counting the
    /// identifiers found against the number of nodes.
    pub open spec fn spec_is_connected(self) -> bool {
        mesh_connected(self.nodes@, self.links@)
    }

    pub fn new() -> (r: Self)
        ensures
            r.nodes@.len() == 0,
            r.links@.len() == 0,
    {
        Mesh { nodes: Vec::new(), links: Vec::new() }
    }

    pub fn with_nodes(self, nodes: Vec<MeshNode>) -> (r: Self)
        ensures
            r.nodes@ == nodes@,
            r.links@ == self.links@,
    {
        Mesh { nodes, links: self.links }
    }

    pub fn with_links(self, links: Vec<HyphaeLink>) -> (r: Self)
        ensures
            r.nodes@ == self.nodes@,
            r.links@ == links@,
    {
        Mesh { nodes: self.nodes, links }
    }

    pub fn add_node(&mut self, node: MeshNode)
        ensures
            final(self).nodes@ == old(self).nodes@.push(node),
            final(self).links@ == old(self).links@,
    {
        self.nodes.push(node);
    }

    pub fn add_link(&mut self, link: HyphaeLink)
        ensures
            final(self).links@ == old(self).links@.push(link),
            final(self).nodes@ == old(self).nodes@,
    {
        self.links.push(link);
    }

    /// Index of the first node with the given id.
    pub(crate) fn node_index(&self, id: &str) -> (r: Option<usize>)
        ensures
            match r {
                Some(k) => k < self.nodes.len() && first_node(self.nodes@, id@) == Some(
                    self.nodes@[k as int],
                ),
                None => first_node(self.nodes@, id@) is None,
            },
    {
        let mut i: usize = 0;
        assert(self.nodes@.skip(0) =~= self.nodes@);
        while i < self.nodes.len()
            invariant
                i <= self.nodes.len(),
                first_node(self.nodes@, id@) == first_node(self.nodes@.skip(i as int), id@),
            decreases self.nodes.len() - i,
        {
            assert(self.nodes@.skip(i as int)[0] == self.nodes@[i as int]);
            if same_id(self.nodes[i].id.as_str(), id) {
                return Some(i);
            }
            assert(self.nodes@.skip(i as int).drop_first() =~= self.nodes@.skip(i + 1));
            i = i + 1;
        }
        None
    }

    /// Get a node by ID: the first node carrying it.
    pub fn get_node(&self, id: &str) -> (r: Option<&MeshNode>)
        ensures
            match r {
                Some(n) => first_node(self.nodes@, id@) == Some(*n),
                None => first_node(self.nodes@, id@) is None,
            },
    {
        match self.node_index(id) {
            Some(k) => Some(&self.nodes[k]),
            None => None,
        }
    }

    /// Get all hub nodes.
    pub fn hub_nodes(&self) -> (r: Vec<&MeshNode>)
        ensures
            r@.map_values(|n: &MeshNode| *n) == hub_seq(self.nodes@),
    {
        let mut r: Vec<&MeshNode> = Vec::new();
        let mut i: usize = 0;
        while i < self.nodes.len()
            invariant
                i <= self.nodes.len(),
                r@.map_values(|n: &MeshNode| *n) == hub_seq(self.nodes@.take(i as int)),
            decreases self.nodes.len() - i,
        {
            assert(self.nodes@.take(i + 1).drop_last() =~= self.nodes@.take(i as int));
            if self.nodes[i].is_hub {
                r.push(&self.nodes[i]);
            }
            i = i + 1;
            assert(r@.map_values(|n: &MeshNode| *n) =~= hub_seq(self.nodes@.take(i as int)));
        }
        assert(self.nodes@.take(i as int) =~= self.nodes@);
        r
    }

    /// Get neighbors of a node (undirected: links go both ways).
    pub fn neighbors(&self, node_id: &str) -> (r: Vec<&str>)
        ensures
            r@.map_values(|s: &str| s@) == neighbor_seq(self.links@, node_id@),
    {
        let mut r: Vec<&str> = Vec::new();
        let mut i: usize = 0;
        while i < self.links.len()
            invariant
                i <= self.links.len(),
                r@.map_values(|s: &str| s@) == neighbor_seq(self.links@.take(i as int), node_id@),
            decreases self.links.len() - i,
        {
            assert(self.links@.take(i + 1).drop_last() =~= self.links@.take(i as int));
            let l = &self.links[i];
            if same_id(l.from.as_str(), node_id) {
                r.push(l.to.as_str());
            } else if same_id(l.to.as_str(), node_id) {
                r.push(l.from.as_str());
            }
            i = i + 1;
            assert(r@.map_values(|s: &str| s@) =~= neighbor_seq(
                self.links@.take(i as int),
                node_id@,
            ));
        }
        assert(self.links@.take(i as int) =~= self.links@);
        r
    }

    /// BFS from a given node: the set of reachable node IDs, each once.
    pub fn bfs_from(&self, start: &str) -> (r: Vec<String>)
        ensures
            id_views(r@).no_duplicates(),
            id_views(r@).to_set() == reach_set(self.links@, start@),
    {
        let mask = all_enabled(self.links.len());
        let visited = explore(&self.links, &mask, start);
        assert(id_views(visited@).to_set() =~= reach_set(self.links@, start@));
        visited
    }

    /// Check if the mesh is fully connected (every node can reach every other node).
    pub fn is_connected(&self) -> (r: bool)
        ensures
            r == self.spec_is_connected(),
    {
        if self.nodes.len() == 0 {
            return true;
        }
        let visited = self.bfs_from(self.nodes[0].id.as_str());
        proof {
            id_views(visited@).unique_seq_to_set();
        }
        visited.len() == self.nodes.len()
    }

    /// Adjacency lists: for each identifier that ends a link (in order of
    /// first appearance), its neighbours with the index of the link to each.
    pub fn adjacency(&self) -> (r: Vec<(String, Vec<(String, usize)>)>)
        ensures
            adjacency_keys(r@).no_duplicates(),
            forall|x: Seq<char>| #[trigger] adjacency_keys(r@).contains(x) <==> is_endpoint(self.links@, x),
            forall|k: int|
                0 <= k < r.len() ==> adjacency_view(#[trigger] r@[k].1@) == adjacency_of(
                    self.links@,
                    r@[k].0@,
                ),
    {
        let mut adj: Vec<(String, Vec<(String, usize)>)> = Vec::new();
        let mut i: usize = 0;
        assert(adjacency_keys(adj@) =~= Seq::<Seq<char>>::empty());
        while i < self.links.len()
            invariant
                i <= self.links.len(),
                adjacency_keys(adj@).no_duplicates(),
                forall|x: Seq<char>|
                    #[trigger] adjacency_keys(adj@).contains(x) <==> is_endpoint(
                        self.links@.take(i as int),
                        x,
                    ),
                forall|k: int|
                    0 <= k < adj.len() ==> adjacency_view(#[trigger] adj@[k].1@) == adjacency_of(
                        self.links@.take(i as int),
                        adj@[k].0@,
                    ),
            decreases self.links.len() - i,
        {
            let ghost before = self.links@.take(i as int);
            let ghost after = self.links@.take(i + 1);
            assert(after.drop_last() =~= before);
            let ghost adj0 = adj@;
            let l = &self.links[i];
            add_adjacent(&mut adj, &l.from, &l.to, i);
            let ghost adj1 = adj@;
            add_adjacent(&mut adj, &l.to, &l.from, i);
            proof {
                let lf = l.from@;
                let lt = l.to@;
                assert forall|x: Seq<char>| #[trigger] adjacency_keys(adj@).contains(x) <==> is_endpoint(after, x) by {
                    lemma_endpoint_step(self.links@, i as int, x);
                }
                assert forall|k: int| 0 <= k < adj.len() implies adjacency_view(#[trigger] adj@[k].1@) == adjacency_of(after, adj@[k].0@) by {
                    let x = adj@[k].0@;
                    lemma_adjacency_step(self.links@, i as int, x);
                    if !is_endpoint(before, x) {
                        lemma_adjacency_of_absent(before, x);
                    }
                    if k < adj0.len() {
                        assert(adj1[k].0@ == adj0[k].0@);
                        assert(adjacency_keys(adj0)[k] == x);
                    } else if k < adj1.len() {
                        assert(adj1[k].0@ == lf);
                        assert(!adjacency_keys(adj0).contains(lf)) by {
                            if adjacency_keys(adj0).contains(lf) {
                                let j = adjacency_keys(adj0).index_of(lf);
                                assert(adj1[j].0@ == adj0[j].0@);
                                assert(adjacency_keys(adj1)[j] == adjacency_keys(adj1)[k]);
                            }
                        }
                        assert(adjacency_keys(adj1)[k] == x);
                    } else {
                        assert(adj@[k].0@ == lt);
                    }
                }
            }
            i = i + 1;
        }
        assert(self.links@.take(i as int) =~= self.links@);
        adj
    }

    /// Remove a link by index and return a new mesh without it.
    pub fn without_link(&self, index: usize) -> (r: Self)
        ensures
            r.nodes@ == self.nodes@,
            r.links@ == if index < self.links.len() {
                self.links@.remove(index as int)
            } else {
                self.links@
            },
    {
        let mut new_mesh = self.duplicate();
        if index < new_mesh.links.len() {
            new_mesh.links.remove(index);
        }
        new_mesh
    }

    /// Remove every link joining the two endpoints.
    pub fn without_link_by_endpoints(&self, from: &str, to: &str) -> (r: Self)
        ensures
            r.nodes@ == self.nodes@,
            r.links@ == links_avoiding(self.links@, from@, to@),
    {
        let nodes = copy_nodes(&self.nodes);
        let mut links: Vec<HyphaeLink> = Vec::new();
        let mut i: usize = 0;
        while i < self.links.len()
            invariant
                i <= self.links.len(),
                links@ == links_avoiding(self.links@.take(i as int), from@, to@),
            decreases self.links.len() - i,
        {
            assert(self.links@.take(i + 1).drop_last() =~= self.links@.take(i as int));
            let l = &self.links[i];
            let joined = (same_id(l.from.as_str(), from) && same_id(l.to.as_str(), to)) || (
            same_id(l.from.as_str(), to) && same_id(l.to.as_str(), from));
            if !joined {
                links.push(l.duplicate());
            }
            i = i + 1;
        }
        assert(self.links@.take(i as int) =~= self.links@);
        Mesh { nodes, links }
    }

    /// Count connected components.
    pub fn connected_components(&self) -> (r: usize)
        ensures
            r == component_count(self.nodes@, self.links@),
    {
        let mut seen: Vec<String> = Vec::new();
        let mut count: usize = 0;
        let mut i: usize = 0;
        while i < self.nodes.len()
            invariant
                i <= self.nodes.len(),
                count <= i,
                count == component_count(self.nodes@.take(i as int), self.links@),
                forall|x: Seq<char>|
                    id_views(seen@).contains(x) <==> exists|j: int|
                        0 <= j < i && reachable(self.links@, #[trigger] self.nodes@[j].id@, x),
            decreases self.nodes.len() - i,
        {
            let ghost prefix = self.nodes@.take(i + 1);
            assert(prefix.drop_last() =~= self.nodes@.take(i as int));
            assert forall|j: int| 0 <= j < i implies prefix[j] == self.nodes@[j] by {}
            let node = &self.nodes[i];
            let ghost old_seen = id_views(seen@);
            let ghost old_i = i as int;
            assert(forall|x: Seq<char>| old_seen.contains(x) <==> exists|j: int|
                0 <= j < old_i && reachable(self.links@, #[trigger] self.nodes@[j].id@, x));
            match find_id(&seen, node.id.as_str()) {
                Some(k) => {
                    proof {
                        assert(id_views(seen@)[k as int] == node.id@);
                        assert(id_views(seen@).contains(node.id@));
                        let j = choose|j: int|
                            0 <= j < i && reachable(self.links@, #[trigger] self.nodes@[j].id@, node.id@);
                        assert(prefix[j].id@ == self.nodes@[j].id@);
                        assert(!is_component_start(prefix, self.links@, i as int));
                        // Everything the node reaches was already reached.
                        assert forall|x: Seq<char>|
                            reachable(self.links@, node.id@, x) implies id_views(seen@).contains(x) by {
                            lemma_connected_trans(
                                self.links@,
                                full_mask(self.links@.len()),
                                self.nodes@[j].id@,
                                node.id@,
                                x,
                            );
                        }
                        assert(forall|x: Seq<char>| id_views(seen@).contains(x) <==> (old_seen.contains(x) || reachable(self.links@, node.id@, x)));
                    }
                },
                None => {
                    proof {
                        assert forall|j: int| 0 <= j < i implies !reachable(
                            self.links@,
                            prefix[j].id@,
                            #[trigger] prefix[i as int].id@,
                        ) by {
                            if reachable(self.links@, prefix[j].id@, prefix[i as int].id@) {
                                assert(self.nodes@[j].id@ == prefix[j].id@);
                                assert(id_views(seen@).contains(node.id@));
                            }
                        }
                        assert(is_component_start(prefix, self.links@, i as int));
                    }
                    count = count + 1;
                    let found = self.bfs_from(node.id.as_str());
                    merge_ids(&mut seen, &found);
                    proof {
                        assert forall|x: Seq<char>| id_views(found@).contains(x) <==> reachable(self.links@, node.id@, x) by {
                            assert(id_views(found@).contains(x) <==> id_views(found@).to_set().contains(x));
                            assert(reach_set(self.links@, node.id@).contains(x) <==> reachable(self.links@, node.id@, x));
                        }
                        assert forall|x: Seq<char>| id_views(seen@).contains(x) <==> (old_seen.contains(x) || reachable(self.links@, node.id@, x)) by {
                            assert(id_views(found@).contains(x) <==> reachable(self.links@, node.id@, x));
                            assert(id_views(seen@).contains(x) <==> (old_seen.contains(x) || id_views(found@).contains(x)));
                        }
                    }
                },
            }
            assert(forall|x: Seq<char>| id_views(seen@).contains(x) <==> (old_seen.contains(x) || reachable(self.links@, node.id@, x)));
            i = i + 1;
            proof {
                assert forall|x: Seq<char>|
                    id_views(seen@).contains(x) <==> exists|j: int|
                        0 <= j < i && reachable(self.links@, #[trigger] self.nodes@[j].id@, x) by {
                    assert(id_views(seen@).contains(x) <==> (old_seen.contains(x) || reachable(self.links@, node.id@, x)));
                    assert(old_seen.contains(x) <==> exists|j: int|
                        0 <= j < old_i && reachable(self.links@, #[trigger] self.nodes@[j].id@, x));
                    if reachable(self.links@, node.id@, x) {
                        assert(reachable(self.links@, self.nodes@[old_i].id@, x));
                    }
                    if old_seen.contains(x) {
                        let j = choose|j: int| 0 <= j < old_i && reachable(self.links@, #[trigger] self.nodes@[j].id@, x);
                        assert(0 <= j < i && reachable(self.links@, self.nodes@[j].id@, x));
                    }
                    if exists|j: int| 0 <= j < i && reachable(self.links@, #[trigger] self.nodes@[j].id@, x) {
                        let j = choose|j: int| 0 <= j < i && reachable(self.links@, #[trigger] self.nodes@[j].id@, x);
                        if j < old_i {
                            assert(old_seen.contains(x));
                        }
                    }
                }
            }
        }
        assert(self.nodes@.take(i as int) =~= self.nodes@);
        count
    }

    /// The mesh without the nodes carrying `id` and without the links
    /// touching it.
    pub(crate) fn without_node(&self, id: &str) -> (r: Self)
        ensures
            r.nodes@ == nodes_without(self.nodes@, id@),
            r.links@ == links_without(self.links@, id@),
    {
        let mut nodes: Vec<MeshNode> = Vec::new();
        let mut i: usize = 0;
        while i < self.nodes.len()
            invariant
                i <= self.nodes.len(),
                nodes@ == nodes_without(self.nodes@.take(i as int), id@),
            decreases self.nodes.len() - i,
        {
            assert(self.nodes@.take(i + 1).drop_last() =~= self.nodes@.take(i as int));
            if !same_id(self.nodes[i].id.as_str(), id) {
                nodes.push(self.nodes[i].duplicate());
            }
            i = i + 1;
        }
        assert(self.nodes@.take(i as int) =~= self.nodes@);
        let mut links: Vec<HyphaeLink> = Vec::new();
        let mut j: usize = 0;
        while j < self.links.len()
            invariant
                j <= self.links.len(),
                links@ == links_without(self.links@.take(j as int), id@),
            decreases self.links.len() - j,
        {
            assert(self.links@.take(j + 1).drop_last() =~= self.links@.take(j as int));
            let l = &self.links[j];
            if !same_id(l.from.as_str(), id) && !same_id(l.to.as_str(), id) {
                links.push(l.duplicate());
            }
            j = j + 1;
        }
        assert(self.links@.take(j as int) =~= self.links@);
        Mesh { nodes, links }
    }

    /// A copy of the mesh.
    pub(crate) fn duplicate(&self) -> (r: Self)
        ensures
            r.nodes@ == self.nodes@,
            r.links@ == self.links@,
    {
        Mesh { nodes: copy_nodes(&self.nodes), links: copy_links(&self.links) }
    }
}

impl Default for Mesh {
    fn default() -> (r: Self)
        ensures
            r.nodes@.len() == 0,
            r.links@.len() == 0,
    {
        Self::new()
    }
}

/// Keys of an adjacency table.
pub open spec fn adjacency_keys(v: Seq<(String, Vec<(String, usize)>)>) -> Seq<Seq<char>> {
    v.map_values(|e: (String, Vec<(String, usize)>)| e.0@)
}

proof fn lemma_adjacency_of_absent(links: Seq<HyphaeLink>, x: Seq<char>)
    requires
        !is_endpoint(links, x),
    ensures
        adjacency_of(links, x) == Seq::<(Seq<char>, int)>::empty(),
    decreases links.len(),
{
    if links.len() > 0 {
        let rest = links.drop_last();
        assert(!is_endpoint(rest, x)) by {
            if is_endpoint(rest, x) {
                let i = choose|i: int| 0 <= i < rest.len() && (#[trigger] rest[i].from@ == x || rest[i].to@ == x);
                assert(links[i] == rest[i]);
            }
        }
        lemma_adjacency_of_absent(rest, x);
        assert(links[links.len() - 1] == links.last());
    }
}

proof fn lemma_endpoint_step(links: Seq<HyphaeLink>, i: int, x: Seq<char>)
    requires
        0 <= i < links.len(),
    ensures
        is_endpoint(links.take(i + 1), x) <==> (is_endpoint(links.take(i), x) || links[i].from@ == x
            || links[i].to@ == x),
{
    let a = links.take(i);
    let b = links.take(i + 1);
    if is_endpoint(b, x) {
        let j = choose|j: int| 0 <= j < b.len() && (#[trigger] b[j].from@ == x || b[j].to@ == x);
        if j < i {
            assert(a[j] == b[j]);
            assert(a[j].from@ == x || a[j].to@ == x);
        } else {
            assert(b[j] == links[i]);
        }
    }
    if is_endpoint(a, x) {
        let j = choose|j: int| 0 <= j < a.len() && (#[trigger] a[j].from@ == x || a[j].to@ == x);
        assert(a[j] == b[j]);
        assert(b[j].from@ == x || b[j].to@ == x);
    }
    if links[i].from@ == x || links[i].to@ == x {
        assert(b[i] == links[i]);
        assert(b[i].from@ == x || b[i].to@ == x);
    }
}

proof fn lemma_adjacency_step(links: Seq<HyphaeLink>, i: int, x: Seq<char>)
    requires
        0 <= i < links.len(),
    ensures
        adjacency_of(links.take(i + 1), x) == ({
            let r1 = if links[i].from@ == x {
                adjacency_of(links.take(i), x).push((links[i].to@, i))
            } else {
                adjacency_of(links.take(i), x)
            };
            if links[i].to@ == x {
                r1.push((links[i].from@, i))
            } else {
                r1
            }
        }),
{
    assert(links.take(i + 1).drop_last() =~= links.take(i));
    assert(links.take(i + 1).last() == links[i]);
}

/// Position of the entry for `key`, if the table has one.
fn key_position(adj: &Vec<(String, Vec<(String, usize)>)>, key: &String) -> (r: Option<usize>)
    ensures
        match r {
            Some(k) => k < adj.len() && adj@[k as int].0@ == key@,
            None => forall|j: int| 0 <= j < adj.len() ==> adj@[j].0@ != key@,
        },
{
    let mut k: usize = 0;
    while k < adj.len()
        invariant
            k <= adj.len(),
            forall|j: int| 0 <= j < k ==> adj@[j].0@ != key@,
        decreases adj.len() - k,
    {
        if adj[k].0 == *key {
            return Some(k);
        }
        k = k + 1;
    }
    None
}

/// Appends `(other, i)` to the adjacency list of `key`, creating the list
/// when `key` has none.
fn add_adjacent(adj: &mut Vec<(String, Vec<(String, usize)>)>, key: &String, other: &String, i: usize)
    requires
        adjacency_keys(old(adj)@).no_duplicates(),
    ensures
        adjacency_keys(final(adj)@).no_duplicates(),
        forall|x: Seq<char>|
            #[trigger] adjacency_keys(final(adj)@).contains(x) <==> (adjacency_keys(old(adj)@).contains(x) || x == key@),
        forall|k: int|
            0 <= k < final(adj).len() ==> #[trigger] adjacency_view(final(adj)@[k].1@) == if final(adj)@[k].0@ == key@ {
                if adjacency_keys(old(adj)@).contains(key@) {
                    adjacency_view(old(adj)@[k].1@).push((other@, i as int))
                } else {
                    seq![(other@, i as int)]
                }
            } else {
                adjacency_view(old(adj)@[k].1@)
            },
        forall|k: int| 0 <= k < old(adj).len() ==> #[trigger] final(adj)@[k].0@ == old(adj)@[k].0@,
        final(adj).len() == old(adj).len() + if adjacency_keys(old(adj)@).contains(key@) {
            0int
        } else {
            1int
        },
        final(adj).len() > old(adj).len() ==> final(adj)@[old(adj).len() as int].0@ == key@,
{
    let pos = key_position(adj, key);
    if pos.is_some() {
        let k = pos.unwrap();
        let ghost old_entry = adj@[k as int];
        adj[k].1.push((other.clone(), i));
        proof {
            assert(adj@[k as int].0 == old_entry.0);
            assert(adj@[k as int].1@ == old_entry.1@.push((*other, i)));
            assert(adjacency_view(adj@[k as int].1@) =~= adjacency_view(old_entry.1@).push((other@, i as int)));
            assert(forall|j: int| 0 <= j < adj.len() && j != k ==> adj@[j] == old(adj)@[j]);
            assert forall|j: int| 0 <= j < adj.len() implies adjacency_keys(adj@)[j] == adjacency_keys(old(adj)@)[j] by {
                if j == k {
                    assert(adj@[j].0 == old(adj)@[j].0);
                }
            }
            assert(adjacency_keys(adj@) =~= adjacency_keys(old(adj)@));
            assert(adjacency_keys(old(adj)@)[k as int] == key@);
            assert(adjacency_keys(old(adj)@).contains(key@));
            assert forall|j: int| 0 <= j < adj.len() implies #[trigger] adjacency_view(adj@[j].1@) == if adj@[j].0@ == key@ {
                adjacency_view(old(adj)@[j].1@).push((other@, i as int))
            } else {
                adjacency_view(old(adj)@[j].1@)
            } by {
                if j == k {
                    assert(old(adj)@[j] == old_entry);
                    assert(adj@[j].0@ == key@);
                } else {
                    assert(adj@[j] == old(adj)@[j]);
                    if adj@[j].0@ == key@ {
                        assert(adjacency_keys(old(adj)@)[j] == adjacency_keys(old(adj)@)[k as int]);
                    }
                }
            }
            assert forall|j: int| 0 <= j < old(adj).len() implies #[trigger] adj@[j].0@ == old(adj)@[j].0@ by {
                assert(adjacency_keys(adj@)[j] == adjacency_keys(old(adj)@)[j]);
            }
        }
        return;
    }
    let mut list: Vec<(String, usize)> = Vec::new();
    list.push((other.clone(), i));
    assert(adjacency_view(list@) =~= seq![(other@, i as int)]);
    adj.push((key.clone(), list));
    proof {
        assert(adjacency_keys(adj@) =~= adjacency_keys(old(adj)@).push(key@));
        assert(!adjacency_keys(old(adj)@).contains(key@)) by {
            if adjacency_keys(old(adj)@).contains(key@) {
                let j = adjacency_keys(old(adj)@).index_of(key@);
                assert(old(adj)@[j].0@ == key@);
            }
        }
        assert forall|j: int| 0 <= j < old(adj).len() implies #[trigger] adj@[j].0@ == old(adj)@[j].0@ by {
            assert(adj@[j] == old(adj)@[j]);
        }
    }
}

/// Copies a sequence of nodes.
fn copy_nodes(v: &Vec<MeshNode>) -> (r: Vec<MeshNode>)
    ensures
        r@ == v@,
{
    let mut r: Vec<MeshNode> = Vec::new();
    let mut i: usize = 0;
    while i < v.len()
        invariant
            i <= v.len(),
            r@ == v@.take(i as int),
        decreases v.len() - i,
    {
        r.push(v[i].duplicate());
        i = i + 1;
        assert(r@ =~= v@.take(i as int));
    }
    assert(v@.take(i as int) =~= v@);
    r
}

/// Copies a sequence of links.
fn copy_links(v: &Vec<HyphaeLink>) -> (r: Vec<HyphaeLink>)
    ensures
        r@ == v@,
{
    let mut r: Vec<HyphaeLink> = Vec::new();
    let mut i: usize = 0;
    while i < v.len()
        invariant
            i <= v.len(),
            r@ == v@.take(i as int),
        decreases v.len() - i,
    {
        r.push(v[i].duplicate());
        i = i + 1;
        assert(r@ =~= v@.take(i as int));
    }
    assert(v@.take(i as int) =~= v@);
    r
}

/// Adds to `seen` every identifier of `more` it does not hold yet.
fn merge_ids(seen: &mut Vec<String>, more: &Vec<String>)
    ensures
        forall|x: Seq<char>|
            id_views(final(seen)@).contains(x) <==> (id_views(old(seen)@).contains(x) || id_views(
                more@,
            ).contains(x)),
{
    let mut i: usize = 0;
    while i < more.len()
        invariant
            i <= more.len(),
            forall|x: Seq<char>|
                id_views(seen@).contains(x) <==> (id_views(old(seen)@).contains(x) || id_views(
                    more@.take(i as int),
                ).contains(x)),
        decreases more.len() - i,
    {
        let ghost prev = id_views(seen@);
        let item = &more[i];
        match find_id(seen, item.as_str()) {
            Some(k) => {
                assert(prev[k as int] == item@);
            },
            None => {
                seen.push(item.clone());
                proof {
                    assert(id_views(seen@) =~= prev.push(item@));
                    assert(id_views(seen@)[prev.len() as int] == item@);
                    assert forall|x: Seq<char>| prev.contains(x) implies id_views(seen@).contains(x) by {
                        let k = prev.index_of(x);
                        assert(id_views(seen@)[k] == x);
                    }
                }
            },
        }
        assert(forall|x: Seq<char>| id_views(seen@).contains(x) <==> (prev.contains(x) || x == item@));
        assert(id_views(more@.take(i + 1)) =~= id_views(more@.take(i as int)).push(item@));
        proof {
            assert forall|x: Seq<char>| id_views(more@.take(i + 1)).contains(x) <==> (id_views(more@.take(i as int)).contains(x) || x == item@) by {
                let t = id_views(more@.take(i as int));
                if t.contains(x) {
                    let k = t.index_of(x);
                    assert(id_views(more@.take(i + 1))[k] == x);
                }
                if x == item@ {
                    assert(id_views(more@.take(i + 1))[i as int] == x);
                }
            }
        }
        i = i + 1;
    }
    assert(more@.take(i as int) =~= more@);
}

/// A mesh in which no identifier is carried by two nodes and every link
/// joins two nodes of the mesh.
pub open spec fn well_formed_mesh(nodes: Seq<MeshNode>, links: Seq<HyphaeLink>) -> bool {
    &&& node_ids(nodes).no_duplicates()
    &&& forall|i: int|
        0 <= i < links.len() ==> node_ids(nodes).contains(#[trigger] links[i].from@)
            && node_ids(nodes).contains(links[i].to@)
}

/// Every node can reach every other node.
pub open spec fn all_pairs_reach(nodes: Seq<MeshNode>, links: Seq<HyphaeLink>) -> bool {
    forall|i: int, j: int|
        0 <= i < nodes.len() && 0 <= j < nodes.len() ==> reachable(
            links,
            #[trigger] nodes[i].id@,
            #[trigger] nodes[j].id@,
        )
}

/// In a well-formed mesh, what a node reaches is a node of the mesh.
proof fn lemma_reach_within_nodes(nodes: Seq<MeshNode>, links: Seq<HyphaeLink>, a: Seq<char>)
    requires
        well_formed_mesh(nodes, links),
        node_ids(nodes).contains(a),
    ensures
        reach_set(links, a).subset_of(node_ids(nodes).to_set()),
        reach_set(links, a).finite(),
{
    let u = node_ids(nodes).to_set();
    let mask = full_mask(links.len());
    assert forall|b: Seq<char>| reach_set(links, a).contains(b) implies u.contains(b) by {
        let (ns, es) = choose|ns: Seq<Seq<char>>, es: Seq<int>| #[trigger]
            is_walk_between(links, mask, ns, es, a, b);
        assert forall|i: int, x: Seq<char>, y: Seq<char>|
            0 <= i < links.len() && i < mask.len() && mask[i] && #[trigger] joins(links[i], x, y)
                && u.contains(x) implies u.contains(y) by {
            assert(node_ids(nodes).contains(links[i].from@));
        }
        lemma_closed_set_holds_walk(links, mask, u, ns, es, a, b);
    }
    vstd::set_lib::lemma_len_subset(reach_set(links, a), u);
}

/// `is_connected` means what its name says: in a well-formed mesh, counting
/// the identifiers found from the first node against the number of nodes
/// tells exactly whether every node can reach every other node.
pub proof fn lemma_connected_iff_all_pairs_reach(nodes: Seq<MeshNode>, links: Seq<HyphaeLink>)
    requires
        well_formed_mesh(nodes, links),
    ensures
        mesh_connected(nodes, links) <==> all_pairs_reach(nodes, links),
{
    if nodes.len() > 0 {
        let ids = node_ids(nodes);
        let u = ids.to_set();
        let a = nodes[0].id@;
        assert(ids[0] == a);
        lemma_reach_within_nodes(nodes, links, a);
        ids.unique_seq_to_set();
        if mesh_connected(nodes, links) {
            vstd::set_lib::lemma_subset_equality(reach_set(links, a), u);
            assert forall|i: int, j: int| 0 <= i < nodes.len() && 0 <= j < nodes.len() implies reachable(
                links,
                #[trigger] nodes[i].id@,
                #[trigger] nodes[j].id@,
            ) by {
                assert(ids[i] == nodes[i].id@);
                assert(ids[j] == nodes[j].id@);
                assert(u.contains(nodes[i].id@));
                assert(u.contains(nodes[j].id@));
                let mask = full_mask(links.len());
                lemma_connected_symm(links, mask, a, nodes[i].id@);
                lemma_connected_trans(links, mask, nodes[i].id@, a, nodes[j].id@);
            }
        }
        if all_pairs_reach(nodes, links) {
            assert forall|x: Seq<char>| u.contains(x) implies reach_set(links, a).contains(x) by {
                let i = ids.index_of(x);
                assert(nodes[i].id@ == x);
                assert(reachable(links, nodes[0].id@, nodes[i].id@));
            }
            assert(reach_set(links, a) =~= u);
        }
    }
}

/// In a well-formed mesh with at least one node, being connected is having
/// exactly one connected component.
pub proof fn lemma_connected_iff_one_component(nodes: Seq<MeshNode>, links: Seq<HyphaeLink>)
    requires
        well_formed_mesh(nodes, links),
        nodes.len() > 0,
    ensures
        mesh_connected(nodes, links) <==> component_count(nodes, links) == 1,
{
    lemma_connected_iff_all_pairs_reach(nodes, links);
    lemma_component_count_first(nodes, links);
    if all_pairs_reach(nodes, links) {
        lemma_single_component(nodes, links, nodes.len() as int);
    }
    if component_count(nodes, links) == 1 {
        lemma_one_component_reaches(nodes, links, nodes.len() as int);
        let mask = full_mask(links.len());
        assert forall|i: int, j: int| 0 <= i < nodes.len() && 0 <= j < nodes.len() implies reachable(
            links,
            #[trigger] nodes[i].id@,
            #[trigger] nodes[j].id@,
        ) by {
            lemma_connected_symm(links, mask, nodes[0].id@, nodes[i].id@);
            lemma_connected_trans(links, mask, nodes[i].id@, nodes[0].id@, nodes[j].id@);
        }
    }
}

/// The first node always starts a component, so a nonempty prefix has at
/// least one.
proof fn lemma_component_count_first(nodes: Seq<MeshNode>, links: Seq<HyphaeLink>)
    requires
        nodes.len() > 0,
    ensures
        component_count(nodes, links) >= 1,
    decreases nodes.len(),
{
    if nodes.len() > 1 {
        lemma_component_count_first(nodes.drop_last(), links);
    } else {
        assert(component_count(nodes.drop_last(), links) == 0);
        assert(is_component_start(nodes, links, 0));
    }
}

/// When the first node reaches every node, only the first node starts a
/// component.
proof fn lemma_single_component(nodes: Seq<MeshNode>, links: Seq<HyphaeLink>, n: int)
    requires
        0 < n <= nodes.len(),
        all_pairs_reach(nodes, links),
    ensures
        component_count(nodes.take(n), links) == 1,
    decreases n,
{
    let p = nodes.take(n);
    assert(p.drop_last() =~= nodes.take(n - 1));
    if n == 1 {
        assert(component_count(p.drop_last(), links) == 0);
        assert(is_component_start(p, links, 0));
    } else {
        lemma_single_component(nodes, links, n - 1);
        assert(p[0] == nodes[0]);
        assert(p[n - 1] == nodes[n - 1]);
        assert(reachable(links, nodes[0].id@, nodes[n - 1].id@));
        assert(!is_component_start(p, links, n - 1));
    }
}

/// With a single component among the first `n` nodes, the first node reaches
/// each of them.
proof fn lemma_one_component_reaches(nodes: Seq<MeshNode>, links: Seq<HyphaeLink>, n: int)
    requires
        0 < n <= nodes.len(),
        component_count(nodes.take(n), links) == 1,
    ensures
        forall|i: int| 0 <= i < n ==> reachable(links, nodes[0].id@, #[trigger] nodes[i].id@),
    decreases n,
{
    let p = nodes.take(n);
    assert(p.drop_last() =~= nodes.take(n - 1));
    let mask = full_mask(links.len());
    if n == 1 {
        lemma_walk_here(links, mask, nodes[0].id@);
    } else {
        lemma_component_count_first(nodes.take(n - 1), links);
        assert(component_count(nodes.take(n - 1), links) == 1);
        lemma_one_component_reaches(nodes, links, n - 1);
        assert(!is_component_start(p, links, n - 1));
        let j = choose|j: int| 0 <= j < n - 1 && reachable(links, #[trigger] p[j].id@, p[n - 1].id@);
        assert(p[j] == nodes[j]);
        assert(p[n - 1] == nodes[n - 1]);
        assert(reachable(links, nodes[0].id@, nodes[j].id@));
        lemma_connected_trans(links, mask, nodes[0].id@, nodes[j].id@, nodes[n - 1].id@);
    }
}

/// The hub nodes are exactly the nodes marked as hubs, in their order.
pub proof fn lemma_hubs_are_marked_nodes(nodes: Seq<MeshNode>)
    ensures
        hub_seq(nodes) == nodes.filter(|n: MeshNode| n.is_hub),
    decreases nodes.len(),
{
    reveal(Seq::filter);
    if nodes.len() > 0 {
        lemma_hubs_are_marked_nodes(nodes.drop_last());
    }
}

/// Taking a node out keeps exactly the other nodes, in their order.
pub proof fn lemma_nodes_without_keeps_others(nodes: Seq<MeshNode>, id: Seq<char>)
    ensures
        nodes_without(nodes, id) == nodes.filter(|n: MeshNode| n.id@ != id),
    decreases nodes.len(),
{
    reveal(Seq::filter);
    if nodes.len() > 0 {
        lemma_nodes_without_keeps_others(nodes.drop_last(), id);
    }
}

/// Taking a node out keeps exactly the links that do not touch it, in
/// their order.
pub proof fn lemma_links_without_keeps_others(links: Seq<HyphaeLink>, id: Seq<char>)
    ensures
        links_without(links, id) == links.filter(|l: HyphaeLink| l.from@ != id && l.to@ != id),
    decreases links.len(),
{
    reveal(Seq::filter);
    if links.len() > 0 {
        lemma_links_without_keeps_others(links.drop_last(), id);
    }
}

/// Failing the link between two nodes keeps exactly the links that do not
/// join them (in either direction), in their order.
pub proof fn lemma_links_avoiding_keeps_others(links: Seq<HyphaeLink>, a: Seq<char>, b: Seq<char>)
    ensures
        links_avoiding(links, a, b) == links.filter(
            |l: HyphaeLink| !(l.from@ == a && l.to@ == b || l.from@ == b && l.to@ == a),
        ),
    decreases links.len(),
{
    reveal(Seq::filter);
    if links.len() > 0 {
        lemma_links_avoiding_keeps_others(links.drop_last(), a, b);
    }
}

/// The node found for an identifier is the first node carrying it, and
/// none is found only when no node carries it.
pub proof fn lemma_first_node_is_first_carrying(nodes: Seq<MeshNode>, id: Seq<char>)
    ensures
        match first_node(nodes, id) {
            Some(n) => exists|i: int|
                0 <= i < nodes.len() && nodes[i] == n && n.id@ == id && forall|j: int|
                    0 <= j < i ==> (#[trigger] nodes[j]).id@ != id,
            None => forall|i: int| 0 <= i < nodes.len() ==> (#[trigger] nodes[i]).id@ != id,
        },
    decreases nodes.len(),
{
    if nodes.len() > 0 {
        let rest = nodes.drop_first();
        lemma_first_node_is_first_carrying(rest, id);
        if nodes[0].id@ != id {
            match first_node(rest, id) {
                Some(n) => {
                    let i = choose|i: int|
                        0 <= i < rest.len() && rest[i] == n && n.id@ == id && forall|j: int|
                            0 <= j < i ==> (#[trigger] rest[j]).id@ != id;
                    assert(nodes[i + 1] == n);
                    assert forall|j: int| 0 <= j < i + 1 implies (#[trigger] nodes[j]).id@ != id by {
                        if j > 0 {
                            assert(nodes[j] == rest[j - 1]);
                        }
                    }
                },
                None => {
                    assert forall|i: int| 0 <= i < nodes.len() implies (#[trigger] nodes[i]).id@ != id by {
                        if i > 0 {
                            assert(nodes[i] == rest[i - 1]);
                        }
                    }
                },
            }
        }
    }
}

/// The neighbours of a node are the other ends of the links touching it,
/// one per link, in link order.
pub proof fn lemma_neighbors_are_other_ends(links: Seq<HyphaeLink>, x: Seq<char>)
    ensures
        neighbor_seq(links, x) == links.filter(|l: HyphaeLink| l.from@ == x || l.to@ == x).map_values(
            |l: HyphaeLink|
                if l.from@ == x {
                    l.to@
                } else {
                    l.from@
                },
        ),
    decreases links.len(),
{
    reveal(Seq::filter);
    let pred = |l: HyphaeLink| l.from@ == x || l.to@ == x;
    let other = |l: HyphaeLink|
        if l.from@ == x {
            l.to@
        } else {
            l.from@
        };
    if links.len() == 0 {
        assert(links.filter(pred).map_values(other) =~= Seq::<Seq<char>>::empty());
    } else {
        lemma_neighbors_are_other_ends(links.drop_last(), x);
        let f0 = links.drop_last().filter(pred);
        if pred(links.last()) {
            assert(f0.push(links.last()).map_values(other) =~= f0.map_values(other).push(other(links.last())));
        }
    }
}

} // verus!
