//! Mesh resilience analysis: how many failures can the network survive?
//!
//! A mycorrhizal mesh is resilient because it has redundant paths.
//! If one hypha is severed, nutrients (messages) can still flow through
//! alternate routes. This module quantifies that resilience and compares
//! it to a simple tree topology where any single break is catastrophic.
use vstd::prelude::*;
use crate::hyphae_link::HyphaeLink;
use crate::ident::{id_views, same_id, pair_key, dash_join, dash_joined};
use crate::mesh::{
    Mesh, MeshNode, mesh_connected, node_ids, links_avoiding, nodes_without, links_without,
    component_count, well_formed_mesh, lemma_connected_iff_all_pairs_reach,
};
use crate::flow::{
    mask_without, is_edge_connectivity, flow_view, net_out, is_flow, residual_search, augment,
    lemma_net_out_zero, lemma_net_out_bound, lemma_saturated_cut_separates, lemma_flow_bounds_cuts,
    lemma_edge_connectivity_exists,
};
use crate::walk::{
    connected_in, is_walk_between, full_mask, joins, reachable, no_parallel_links, lemma_walk_here,
    lemma_connected_symm, lemma_closed_set_holds_walk,
};

verus! {

broadcast use vstd::seq_lib::group_seq_properties;

/// Report on mesh resilience characteristics.
#[derive(Debug, Clone)]
pub struct ResilienceReport {
    /// k-resilience: the mesh survives any k link failures without disconnection.
    pub k_resilience: usize,
    /// Links whose removal would disconnect the mesh (bridges).
    pub critical_links: Vec<String>,
    /// Node whose removal most reduces connectivity.
    pub bottleneck_node: Option<String>,
    /// Total number of links in the mesh.
    pub total_links: usize,
    /// Total number of nodes in the mesh.
    pub total_nodes: usize,
    /// Whether the mesh is currently connected.
    pub is_connected: bool,
}

/// Represents a link failure event.
#[derive(Debug, Clone)]
pub struct LinkFailure {
    pub from: String,
    pub to: String,
    pub link_id: String,
}

impl LinkFailure {
    /// A failure of the link from `from` to `to`, identified as `from-to`.
    pub fn new(from: &str, to: &str) -> (r: Self)
        ensures
            r.from@ == from@,
            r.to@ == to@,
            r.link_id@ == dash_join(from@, to@),
    {
        let link_id = dash_joined(from, to);
        LinkFailure { from: from.to_owned(), to: to.to_owned(), link_id }
    }
}

/// `r` is the k-resilience of the mesh: zero for a mesh of fewer than two
/// nodes or a disconnected one; otherwise one less than the smallest edge
/// connectivity of two of its nodes (zero when that is zero): every pair has
/// connectivity above `r` (or `r` is zero), and some pair exactly `r + 1`
/// (or zero when `r` is zero).
pub open spec fn is_k_resilience(nodes: Seq<MeshNode>, links: Seq<HyphaeLink>, r: nat) -> bool {
    if nodes.len() < 2 || !mesh_connected(nodes, links) {
        r == 0
    } else {
        &&& forall|i: int, j: int|
            0 <= i < j < nodes.len() ==> #[trigger] pair_exceeds(links, nodes[i].id@, nodes[j].id@, r)
        &&& exists|i: int, j: int|
            0 <= i < j < nodes.len() && #[trigger] pair_attains(links, nodes[i].id@, nodes[j].id@, r)
    }
}

/// The edge connectivity of `a` and `b` is at least `m`.
pub open spec fn pair_at_least(links: Seq<HyphaeLink>, a: Seq<char>, b: Seq<char>, m: nat) -> bool {
    exists|c: nat| #[trigger] is_edge_connectivity(links, a, b, c) && m <= c
}

/// The edge connectivity of `a` and `b` exceeds `r`, or `r` is zero.
pub open spec fn pair_exceeds(links: Seq<HyphaeLink>, a: Seq<char>, b: Seq<char>, r: nat) -> bool {
    exists|c: nat| #[trigger] is_edge_connectivity(links, a, b, c) && (r == 0 || r < c)
}

/// The edge connectivity of `a` and `b` is `r + 1`, or zero when `r` is
/// zero.
pub open spec fn pair_attains(links: Seq<HyphaeLink>, a: Seq<char>, b: Seq<char>, r: nat) -> bool {
    exists|c: nat|
        #[trigger] is_edge_connectivity(links, a, b, c) && r == (if c == 0 {
            0
        } else {
            (c - 1) as nat
        })
}

/// Removing every link joining the endpoints of `l` disconnects the mesh.
pub open spec fn is_bridge(nodes: Seq<MeshNode>, links: Seq<HyphaeLink>, l: HyphaeLink) -> bool {
    !mesh_connected(nodes, links_avoiding(links, l.from@, l.to@))
}

/// The keys of the bridges among the first `n` links, in order.
pub open spec fn bridge_keys(nodes: Seq<MeshNode>, links: Seq<HyphaeLink>, n: int) -> Seq<Seq<char>>
    decreases n,
{
    if n <= 0 {
        Seq::empty()
    } else {
        let rest = bridge_keys(nodes, links, n - 1);
        if is_bridge(nodes, links, links[n - 1]) {
            rest.push(pair_key(links[n - 1].from@, links[n - 1].to@))
        } else {
            rest
        }
    }
}

/// The keys of the bridges of the mesh, in link order (none for a mesh of
/// fewer than two nodes).
pub open spec fn bridge_list(nodes: Seq<MeshNode>, links: Seq<HyphaeLink>) -> Seq<Seq<char>> {
    if nodes.len() < 2 {
        Seq::empty()
    } else {
        bridge_keys(nodes, links, links.len() as int)
    }
}

/// The components left when node `k` is taken out together with its links
/// (none when no node is left).
pub open spec fn removal_penalty(nodes: Seq<MeshNode>, links: Seq<HyphaeLink>, k: int) -> nat {
    let rest = nodes_without(nodes, nodes[k].id@);
    if rest.len() == 0 {
        0
    } else {
        component_count(rest, links_without(links, nodes[k].id@))
    }
}

/// Node `k` is the first whose removal leaves the most components.
pub open spec fn is_bottleneck(nodes: Seq<MeshNode>, links: Seq<HyphaeLink>, k: int) -> bool {
    &&& 0 <= k < nodes.len()
    &&& forall|j: int| 0 <= j < nodes.len() ==> removal_penalty(nodes, links, j) <= removal_penalty(nodes, links, k)
    &&& forall|j: int| 0 <= j < k ==> removal_penalty(nodes, links, j) < removal_penalty(nodes, links, k)
}

/// The links left after each failure in turn removes the links joining its
/// endpoints.
pub open spec fn links_after_failures(links: Seq<HyphaeLink>, failures: Seq<LinkFailure>) -> Seq<HyphaeLink>
    decreases failures.len(),
{
    if failures.len() == 0 {
        links
    } else {
        let f = failures.last();
        links_avoiding(links_after_failures(links, failures.drop_last()), f.from@, f.to@)
    }
}

/// k-resilience means what it says: when the k-resilience of a mesh is `k`
/// (more than zero), any `k` failed links leave every pair of its nodes
/// connected.
pub proof fn lemma_survives_any_k_failures(
    nodes: Seq<MeshNode>,
    links: Seq<HyphaeLink>,
    k: nat,
    removed: Seq<int>,
    i: int,
    j: int,
)
    requires
        is_k_resilience(nodes, links, k),
        k > 0,
        removed.len() <= k,
        0 <= i < j < nodes.len(),
    ensures
        connected_in(links, mask_without(links.len(), removed), nodes[i].id@, nodes[j].id@),
{
    assert(nodes.len() >= 2 && mesh_connected(nodes, links));
    assert(pair_exceeds(links, nodes[i].id@, nodes[j].id@, k));
    let c = choose|c: nat| #[trigger] is_edge_connectivity(links, nodes[i].id@, nodes[j].id@, c) && (k == 0 || k < c);
    assert(connected_in(links, mask_without(links.len(), removed), nodes[i].id@, nodes[j].id@));
}

/// k-resilience is the most that can fail: when the k-resilience of a mesh
/// whose nodes carry distinct identifiers is `k`, some `k + 1` failed links
/// cut two of its nodes apart.
pub proof fn lemma_some_k_plus_one_failures_separate(nodes: Seq<MeshNode>, links: Seq<HyphaeLink>, k: nat)
    requires
        is_k_resilience(nodes, links, k),
        node_ids(nodes).no_duplicates(),
        nodes.len() >= 2,
        mesh_connected(nodes, links),
    ensures
        exists|i: int, j: int, removed: Seq<int>|
            0 <= i < j < nodes.len() && removed.len() == k + 1 && !#[trigger] connected_in(
                links,
                mask_without(links.len(), removed),
                nodes[i].id@,
                nodes[j].id@,
            ),
{
    let (i, j) = choose|i: int, j: int|
        0 <= i < j < nodes.len() && #[trigger] pair_attains(links, nodes[i].id@, nodes[j].id@, k);
    let a = nodes[i].id@;
    let b = nodes[j].id@;
    let c = choose|c: nat|
        #[trigger] is_edge_connectivity(links, a, b, c) && k == (if c == 0 {
            0
        } else {
            (c - 1) as nat
        });
    assert(node_ids(nodes)[i] == a && node_ids(nodes)[j] == b);
    assert(a != b);
    let removed = choose|removed: Seq<int>|
        removed.len() == c && !#[trigger] connected_in(links, mask_without(links.len(), removed), a, b);
    if c == 0 {
        assert(removed.len() == 0);
        let one = seq![0int];
        let m0 = mask_without(links.len(), removed);
        let m1 = mask_without(links.len(), one);
        if connected_in(links, m1, a, b) {
            let (ns, es) = choose|ns: Seq<Seq<char>>, es: Seq<int>| #[trigger] is_walk_between(links, m1, ns, es, a, b);
            assert forall|t: int| 0 <= t < es.len() implies #[trigger] m0[es[t]] by {
                assert(m1[es[t]]);
            }
            assert(is_walk_between(links, m0, ns, es, a, b));
        }
        assert(!connected_in(links, m1, a, b));
    } else {
        assert(removed.len() == k + 1);
    }
}

/// Two nodes have one edge connectivity.
proof fn lemma_edge_connectivity_unique(links: Seq<HyphaeLink>, a: Seq<char>, b: Seq<char>, c1: nat, c2: nat)
    requires
        is_edge_connectivity(links, a, b, c1),
        is_edge_connectivity(links, a, b, c2),
    ensures
        c1 == c2,
{
    if a != b {
        if c1 < c2 {
            let r = choose|removed: Seq<int>|
                removed.len() == c1 && !#[trigger] connected_in(links, mask_without(links.len(), removed), a, b);
            assert(connected_in(links, mask_without(links.len(), r), a, b));
        }
        if c2 < c1 {
            let r = choose|removed: Seq<int>|
                removed.len() == c2 && !#[trigger] connected_in(links, mask_without(links.len(), removed), a, b);
            assert(connected_in(links, mask_without(links.len(), r), a, b));
        }
    }
}

proof fn lemma_k_resilience_at_most(nodes: Seq<MeshNode>, links: Seq<HyphaeLink>, r1: nat, r2: nat)
    requires
        is_k_resilience(nodes, links, r1),
        is_k_resilience(nodes, links, r2),
    ensures
        r2 <= r1,
{
    if nodes.len() >= 2 && mesh_connected(nodes, links) {
        let (i, j) = choose|i: int, j: int|
            0 <= i < j < nodes.len() && #[trigger] pair_attains(links, nodes[i].id@, nodes[j].id@, r1);
        let a = nodes[i].id@;
        let b = nodes[j].id@;
        assert(pair_exceeds(links, a, b, r2));
        let c1 = choose|c: nat|
            #[trigger] is_edge_connectivity(links, a, b, c) && r1 == (if c == 0 {
                0
            } else {
                (c - 1) as nat
            });
        let c2 = choose|c: nat| #[trigger] is_edge_connectivity(links, a, b, c) && (r2 == 0 || r2 < c);
        lemma_edge_connectivity_unique(links, a, b, c1, c2);
    }
}

/// A mesh has one k-resilience: the one `analyze` reports is the one
/// `compute_k_resilience` and `compare_with_tree` give.
pub proof fn lemma_k_resilience_unique(nodes: Seq<MeshNode>, links: Seq<HyphaeLink>, r1: nat, r2: nat)
    requires
        is_k_resilience(nodes, links, r1),
        is_k_resilience(nodes, links, r2),
    ensures
        r1 == r2,
{
    lemma_k_resilience_at_most(nodes, links, r1, r2);
    lemma_k_resilience_at_most(nodes, links, r2, r1);
}

/// A mesh has one bottleneck node: the one `analyze` reports is the one
/// `find_bottleneck_node` gives.
pub proof fn lemma_bottleneck_unique(nodes: Seq<MeshNode>, links: Seq<HyphaeLink>, k1: int, k2: int)
    requires
        is_bottleneck(nodes, links, k1),
        is_bottleneck(nodes, links, k2),
    ensures
        k1 == k2,
{
    if k1 < k2 {
        assert(removal_penalty(nodes, links, k1) < removal_penalty(nodes, links, k2));
        assert(removal_penalty(nodes, links, k2) <= removal_penalty(nodes, links, k1));
    }
    if k2 < k1 {
        assert(removal_penalty(nodes, links, k2) < removal_penalty(nodes, links, k1));
        assert(removal_penalty(nodes, links, k1) <= removal_penalty(nodes, links, k2));
    }
}

/// Resilience analyzer for a mesh.
pub struct ResilienceAnalyzer<'a> {
    mesh: &'a Mesh,
}

impl<'a> ResilienceAnalyzer<'a> {
    /// The mesh under analysis.
    pub closed spec fn spec_mesh(&self) -> Mesh {
        *self.mesh
    }

    pub fn new(mesh: &'a Mesh) -> (r: Self)
        ensures
            r.spec_mesh() == *mesh,
    {
        ResilienceAnalyzer { mesh }
    }

    /// Generate a full resilience report.
    pub fn analyze(&self) -> (r: ResilienceReport)
        requires
            self.spec_mesh().links@.len() < usize::MAX,
        ensures
            id_views(r.critical_links@) == bridge_list(self.spec_mesh().nodes@, self.spec_mesh().links@),
            match r.bottleneck_node {
                None => self.spec_mesh().nodes@.len() == 0,
                Some(s) => exists|k: int|
                    is_bottleneck(self.spec_mesh().nodes@, self.spec_mesh().links@, k) && s@
                        == #[trigger] self.spec_mesh().nodes@[k].id@,
            },
            is_k_resilience(self.spec_mesh().nodes@, self.spec_mesh().links@, r.k_resilience as nat),
            r.total_links == self.spec_mesh().links@.len(),
            r.total_nodes == self.spec_mesh().nodes@.len(),
            r.is_connected == mesh_connected(self.spec_mesh().nodes@, self.spec_mesh().links@),
    {
        let critical_links = self.find_bridges();
        let bottleneck_node = self.find_bottleneck_node();
        let k_resilience = self.compute_k_resilience();
        ResilienceReport {
            k_resilience,
            critical_links,
            bottleneck_node,
            total_links: self.mesh.links.len(),
            total_nodes: self.mesh.nodes.len(),
            is_connected: self.mesh.is_connected(),
        }
    }

    /// Compute k-resilience: the most link failures the mesh survives while
    /// staying connected, the smallest edge connectivity (min-cut size) of
    /// two of its nodes minus one.
    pub fn compute_k_resilience(&self) -> (r: usize)
        requires
            self.spec_mesh().links@.len() < usize::MAX,
        ensures
            is_k_resilience(self.spec_mesh().nodes@, self.spec_mesh().links@, r as nat),
    {
        let nodes = &self.mesh.nodes;
        let ghost lv = self.spec_mesh().links@;
        let ghost nv = self.spec_mesh().nodes@;
        if nodes.len() < 2 {
            return 0;
        }
        if !self.mesh.is_connected() {
            return 0;
        }
        let n = nodes.len();
        let mut min_conn: usize = usize::MAX;
        let ghost mut best: (int, int) = (0, 1);
        let mut i: usize = 0;
        while i < n
            invariant
                nodes == &self.mesh.nodes,
                nv == nodes@,
                lv == self.spec_mesh().links@,
                lv.len() < usize::MAX,
                n == nv.len(),
                n >= 2,
                i <= n,
                forall|a: int, b: int|
                    0 <= a < i && a < b < n ==> #[trigger] pair_at_least(lv, nv[a].id@, nv[b].id@, min_conn as nat),
                i > 0 ==> 0 <= best.0 < best.1 < n && #[trigger] is_edge_connectivity(lv, nv[best.0].id@, nv[best.1].id@, min_conn as nat),
                i == 0 ==> min_conn == usize::MAX,
                i > 0 ==> min_conn <= lv.len(),
            decreases n - i,
        {
            let mut j: usize = i + 1;
            let ghost had = i > 0 || j > i + 1;
            while j < n
                invariant
                    nodes == &self.mesh.nodes,
                    nv == nodes@,
                    lv == self.spec_mesh().links@,
                    lv.len() < usize::MAX,
                    n == nv.len(),
                    n >= 2,
                    i < n,
                    i + 1 <= j <= n,
                    forall|a: int, b: int|
                        ((0 <= a < i && a < b < n) || (a == i && i < b < j)) ==> #[trigger] pair_at_least(lv, nv[a].id@, nv[b].id@, min_conn as nat),
                    (i > 0 || j > i + 1) ==> 0 <= best.0 < best.1 < n && #[trigger] is_edge_connectivity(lv, nv[best.0].id@, nv[best.1].id@, min_conn as nat),
                    (i == 0 && j == i + 1) ==> min_conn == usize::MAX,
                    (i > 0 || j > i + 1) ==> min_conn <= lv.len(),
                decreases n - j,
            {
                let c = self.edge_connectivity(nodes[i].id.as_str(), nodes[j].id.as_str());
                let ghost old_min = min_conn;
                if c < min_conn {
                    min_conn = c;
                    proof {
                        best = (i as int, j as int);
                    }
                }
                proof {
                    assert(is_edge_connectivity(lv, nv[i as int].id@, nv[j as int].id@, c as nat));
                    assert forall|a: int, b: int|
                        ((0 <= a < i && a < b < n) || (a == i && i < b < j + 1)) implies #[trigger] pair_at_least(lv, nv[a].id@, nv[b].id@, min_conn as nat) by {
                        if a == i && b == j {
                            assert(is_edge_connectivity(lv, nv[a].id@, nv[b].id@, c as nat));
                        } else {
                            assert(pair_at_least(lv, nv[a].id@, nv[b].id@, old_min as nat));
                            let c2 = choose|c2: nat| #[trigger] is_edge_connectivity(lv, nv[a].id@, nv[b].id@, c2) && old_min <= c2;
                        }
                    }
                }
                j = j + 1;
            }
            i = i + 1;
        }
        proof {
            assert(min_conn <= lv.len());
            let r: nat = if min_conn == 0 { 0 } else { (min_conn - 1) as nat };
            assert forall|a: int, b: int| 0 <= a < b < nv.len() implies #[trigger] pair_exceeds(lv, nv[a].id@, nv[b].id@, r) by {
                assert(pair_at_least(lv, nv[a].id@, nv[b].id@, min_conn as nat));
                let c = choose|c: nat| #[trigger] is_edge_connectivity(lv, nv[a].id@, nv[b].id@, c) && min_conn <= c;
            }
            assert(pair_attains(lv, nv[best.0].id@, nv[best.1].id@, r));
        }
        if min_conn == usize::MAX {
            0
        } else {
            min_conn.saturating_sub(1)
        }
    }

    /// Find bridge links (critical links whose removal disconnects the mesh):
    /// each link is removed, with every link joining the same endpoints, and
    /// connectivity checked.
    pub fn find_bridges(&self) -> (r: Vec<String>)
        ensures
            id_views(r@) == bridge_list(self.spec_mesh().nodes@, self.spec_mesh().links@),
    {
        let mut bridges: Vec<String> = Vec::new();
        if self.mesh.nodes.len() < 2 {
            assert(id_views(bridges@) =~= Seq::<Seq<char>>::empty());
            return bridges;
        }
        let links = &self.mesh.links;
        let mut i: usize = 0;
        assert(id_views(bridges@) =~= Seq::<Seq<char>>::empty());
        while i < links.len()
            invariant
                links == &self.mesh.links,
                i <= links.len(),
                self.spec_mesh().nodes@.len() >= 2,
                id_views(bridges@) == bridge_keys(self.spec_mesh().nodes@, links@, i as int),
            decreases links.len() - i,
        {
            let l = &links[i];
            let modified = self.mesh.without_link_by_endpoints(l.from.as_str(), l.to.as_str());
            if !modified.is_connected() {
                let key = l.id();
                let ghost before = id_views(bridges@);
                bridges.push(key);
                assert(id_views(bridges@) =~= before.push(key@));
            }
            i = i + 1;
        }
        bridges
    }

    /// Find the bottleneck node: the first node whose removal, with its
    /// links, leaves the most connected components.
    pub fn find_bottleneck_node(&self) -> (r: Option<String>)
        ensures
            match r {
                None => self.spec_mesh().nodes@.len() == 0,
                Some(s) => exists|k: int|
                    is_bottleneck(self.spec_mesh().nodes@, self.spec_mesh().links@, k) && s@
                        == #[trigger] self.spec_mesh().nodes@[k].id@,
            },
    {
        let nodes = &self.mesh.nodes;
        let ghost nv = nodes@;
        let ghost lv = self.spec_mesh().links@;
        let mut best: usize = 0;
        let mut best_penalty: usize = 0;
        let mut k: usize = 0;
        while k < nodes.len()
            invariant
                nodes == &self.mesh.nodes,
                nv == nodes@,
                lv == self.spec_mesh().links@,
                k <= nv.len(),
                k > 0 ==> best < k && best_penalty == removal_penalty(nv, lv, best as int),
                forall|j: int| 0 <= j < k ==> #[trigger] removal_penalty(nv, lv, j) <= best_penalty,
                forall|j: int| 0 <= j < best && k > 0 ==> #[trigger] removal_penalty(nv, lv, j) < best_penalty,
            decreases nv.len() - k,
        {
            let modified = self.mesh.without_node(nodes[k].id.as_str());
            let components = modified.connected_components();
            let penalty = if modified.nodes.len() == 0 {
                0
            } else {
                components
            };
            assert(penalty == removal_penalty(nv, lv, k as int));
            if k == 0 || penalty > best_penalty {
                best = k;
                best_penalty = penalty;
            }
            k = k + 1;
        }
        if nodes.len() == 0 {
            None
        } else {
            proof {
                assert(is_bottleneck(nv, lv, best as int));
                assert(nv[best as int].id@ == nodes@[best as int].id@);
            }
            Some(nodes[best].id.clone())
        }
    }

    /// Check if the mesh survives a specific set of link failures.
    pub fn survives_failures(&self, failures: &[LinkFailure]) -> (r: bool)
        ensures
            r == mesh_connected(self.spec_mesh().nodes@, links_after_failures(self.spec_mesh().links@, failures@)),
    {
        let mut modified = self.mesh.duplicate();
        let mut i: usize = 0;
        assert(failures@.take(0) =~= Seq::<LinkFailure>::empty());
        while i < failures.len()
            invariant
                i <= failures@.len(),
                modified.nodes@ == self.spec_mesh().nodes@,
                modified.links@ == links_after_failures(self.spec_mesh().links@, failures@.take(i as int)),
            decreases failures@.len() - i,
        {
            let f = &failures[i];
            modified = modified.without_link_by_endpoints(f.from.as_str(), f.to.as_str());
            assert(failures@.take(i + 1).drop_last() =~= failures@.take(i as int));
            i = i + 1;
        }
        assert(failures@.take(i as int) =~= failures@);
        modified.is_connected()
    }

    /// Compare resilience with a tree topology of the same nodes.  Returns
    /// `(mesh_k, tree_k)`, where `tree_k` is always 0: a tree has one link
    /// fewer than it has nodes, and no such mesh survives a failure.
    pub fn compare_with_tree(&self) -> (r: (usize, usize))
        requires
            self.spec_mesh().links@.len() < usize::MAX,
        ensures
            is_k_resilience(self.spec_mesh().nodes@, self.spec_mesh().links@, r.0 as nat),
            r.1 == 0,
    {
        let mesh_k = self.compute_k_resilience();
        (mesh_k, 0)
    }

    /// Edge connectivity between two nodes: units of flow are sent along
    /// walks of the residual graph until none is left; the flow's value is
    /// the number of links crossing out of the nodes the last search found,
    /// whose failure cuts the two nodes apart.
    fn edge_connectivity(&self, a: &str, b: &str) -> (r: usize)
        ensures
            is_edge_connectivity(self.spec_mesh().links@, a@, b@, r as nat),
            r <= self.spec_mesh().links@.len(),
    {
        let links = &self.mesh.links;
        if same_id(a, b) {
            return 0;
        }
        let n = links.len();
        let mut flow: Vec<i64> = Vec::new();
        let mut i: usize = 0;
        while i < n
            invariant
                n == links.len(),
                i <= n,
                flow.len() == i,
                forall|j: int| 0 <= j < i ==> flow@[j] == 0,
            decreases n - i,
        {
            flow.push(0);
            i = i + 1;
        }
        proof {
            let fv = flow_view(flow@);
            assert forall|x: Seq<char>| #[trigger] net_out(links@, fv, x, n as int) == 0 by {
                lemma_net_out_zero(links@, fv, x, n as int);
            }
        }
        let mut value: usize = 0;
        loop
            invariant
                links == &self.mesh.links,
                n == links.len(),
                flow.len() == n,
                a@ != b@,
                is_flow(links@, flow_view(flow@), a@, b@),
                net_out(links@, flow_view(flow@), a@, n as int) == value,
                value <= n,
            decreases n - value,
        {
            let (found, Ghost(ns), Ghost(s)) = residual_search(links, &flow, a, b);
            match found {
                Some(p) => {
                    augment(links, &mut flow, &p, a, Ghost(ns), Ghost(b@));
                    proof {
                        lemma_net_out_bound(links@, flow_view(flow@), a@, n as int);
                    }
                    value = value + 1;
                },
                None => {
                    proof {
                        let fv = flow_view(flow@);
                        assert forall|j: int|
                            0 <= j < links.len() && #[trigger] s.contains(links@[j].from@) && !s.contains(links@[j].to@)
                            implies fv[j] == 1 by {
                            assert(-1 <= fv[j] <= 1);
                        }
                        assert forall|j: int|
                            0 <= j < links.len() && !s.contains(#[trigger] links@[j].from@) && s.contains(links@[j].to@)
                            implies fv[j] == -1 by {
                            assert(-1 <= fv[j] <= 1);
                        }
                        lemma_saturated_cut_separates(links@, fv, a@, b@, s);
                        assert forall|removed: Seq<int>| removed.len() < value implies #[trigger] connected_in(
                            links@,
                            mask_without(links.len() as nat, removed),
                            a@,
                            b@,
                        ) by {
                            if !connected_in(links@, mask_without(links.len() as nat, removed), a@, b@) {
                                lemma_flow_bounds_cuts(links@, fv, a@, b@, removed);
                            }
                        }
                    }
                    return value;
                },
            }
        }
    }
}

/// `c` keeps some of the links of `a`: its `t`-th link is link `pos[t]` of
/// `a`, every link of `a` is kept or listed in `gone`, and `gone` lists as
/// many links as were dropped.
pub open spec fn thins(a: Seq<HyphaeLink>, c: Seq<HyphaeLink>, pos: Seq<int>, gone: Seq<int>) -> bool {
    &&& pos.len() == c.len()
    &&& gone.len() + c.len() == a.len()
    &&& forall|t: int| 0 <= t < pos.len() ==> 0 <= #[trigger] pos[t] < a.len() && c[t] == a[pos[t]]
    &&& forall|i: int| 0 <= i < a.len() ==> #[trigger] pos.contains(i) || gone.contains(i)
}

proof fn lemma_avoiding_thins(links: Seq<HyphaeLink>, u: Seq<char>, v: Seq<char>) -> (pg: (Seq<int>, Seq<int>))
    ensures
        thins(links, links_avoiding(links, u, v), pg.0, pg.1),
    decreases links.len(),
{
    if links.len() == 0 {
        (Seq::empty(), Seq::empty())
    } else {
        let n = links.len() - 1;
        let front = links.drop_last();
        let (p0, g0) = lemma_avoiding_thins(front, u, v);
        let rest = links_avoiding(front, u, v);
        if joins(links.last(), u, v) {
            let g = g0.push(n);
            assert forall|t: int| 0 <= t < p0.len() implies 0 <= #[trigger] p0[t] < links.len() && rest[t] == links[p0[t]] by {
                assert(front[p0[t]] == links[p0[t]]);
            }
            assert forall|i: int| 0 <= i < links.len() implies #[trigger] p0.contains(i) || g.contains(i) by {
                if i < n {
                    if g0.contains(i) {
                        assert(g[g0.index_of(i)] == i);
                    }
                } else {
                    assert(g[g0.len() as int] == i);
                }
            }
            (p0, g)
        } else {
            let p = p0.push(n);
            let c = rest.push(links.last());
            assert forall|t: int| 0 <= t < p.len() implies 0 <= #[trigger] p[t] < links.len() && c[t] == links[p[t]] by {
                if t < p0.len() {
                    assert(p[t] == p0[t]);
                    assert(front[p0[t]] == links[p0[t]]);
                }
            }
            assert forall|i: int| 0 <= i < links.len() implies #[trigger] p.contains(i) || g0.contains(i) by {
                if i < n {
                    if p0.contains(i) {
                        assert(p[p0.index_of(i)] == i);
                    }
                } else {
                    assert(p[p0.len() as int] == i);
                }
            }
            (p, g0)
        }
    }
}

proof fn lemma_thins_compose(
    a: Seq<HyphaeLink>,
    b: Seq<HyphaeLink>,
    c: Seq<HyphaeLink>,
    p1: Seq<int>,
    g1: Seq<int>,
    p2: Seq<int>,
    g2: Seq<int>,
) -> (pg: (Seq<int>, Seq<int>))
    requires
        thins(a, b, p1, g1),
        thins(b, c, p2, g2),
    ensures
        thins(a, c, pg.0, pg.1),
{
    let pos = p2.map_values(|t: int| p1[t]);
    let gone = g1 + g2.map_values(|t: int| p1[t]);
    assert forall|t: int| 0 <= t < pos.len() implies 0 <= #[trigger] pos[t] < a.len() && c[t] == a[pos[t]] by {
        assert(pos[t] == p1[p2[t]]);
    }
    assert forall|i: int| 0 <= i < a.len() implies #[trigger] pos.contains(i) || gone.contains(i) by {
        if g1.contains(i) {
            assert(gone[g1.index_of(i)] == i);
        } else {
            assert(p1.contains(i));
            let s = p1.index_of(i);
            if p2.contains(s) {
                assert(pos[p2.index_of(s)] == i);
            } else {
                assert(g2.contains(s));
                let m = g2.index_of(s);
                assert(gone[g1.len() + m] == p1[g2[m]]);
            }
        }
    }
    (pos, gone)
}

proof fn lemma_failures_thin(links: Seq<HyphaeLink>, failures: Seq<LinkFailure>) -> (pg: (Seq<int>, Seq<int>))
    ensures
        thins(links, links_after_failures(links, failures), pg.0, pg.1),
    decreases failures.len(),
{
    if failures.len() == 0 {
        let pos = Seq::new(links.len(), |i: int| i);
        assert forall|i: int| 0 <= i < links.len() implies #[trigger] pos.contains(i) || Seq::<int>::empty().contains(i) by {
            assert(pos[i] == i);
        }
        (pos, Seq::empty())
    } else {
        let f = failures.last();
        let mid = links_after_failures(links, failures.drop_last());
        let (p1, g1) = lemma_failures_thin(links, failures.drop_last());
        let (p2, g2) = lemma_avoiding_thins(mid, f.from@, f.to@);
        lemma_thins_compose(links, mid, links_avoiding(mid, f.from@, f.to@), p1, g1, p2, g2)
    }
}

/// A walk that avoids the dropped links is a walk of the links kept.
proof fn lemma_walk_survives_thinning(
    a: Seq<HyphaeLink>,
    c: Seq<HyphaeLink>,
    pos: Seq<int>,
    gone: Seq<int>,
    x: Seq<char>,
    y: Seq<char>,
)
    requires
        thins(a, c, pos, gone),
        connected_in(a, mask_without(a.len(), gone), x, y),
    ensures
        reachable(c, x, y),
{
    let mask = mask_without(a.len(), gone);
    let (ns, es) = choose|ns: Seq<Seq<char>>, es: Seq<int>| #[trigger] is_walk_between(a, mask, ns, es, x, y);
    let es2 = es.map_values(|e: int| pos.index_of(e));
    let full = full_mask(c.len());
    assert forall|k: int| 0 <= k < es2.len() implies 0 <= #[trigger] es2[k] < c.len() && joins(
        c[es2[k]],
        ns[k],
        ns[k + 1],
    ) by {
        assert(mask[es[k]]);
        assert(pos.contains(es[k]));
        assert(es2[k] == pos.index_of(es[k]));
    }
    assert forall|k: int| 0 <= k < es2.len() implies #[trigger] full[es2[k]] by {
        assert(mask[es[k]]);
        assert(pos.contains(es[k]));
    }
    assert(is_walk_between(c, full, ns, es2, x, y));
}

/// A well-formed mesh of k-resilience `k > 0` stays connected when at most
/// `k` of its links are dropped.
proof fn lemma_thinned_connected(
    nodes: Seq<MeshNode>,
    links: Seq<HyphaeLink>,
    k: nat,
    c: Seq<HyphaeLink>,
    pos: Seq<int>,
    gone: Seq<int>,
)
    requires
        well_formed_mesh(nodes, links),
        is_k_resilience(nodes, links, k),
        k > 0,
        thins(links, c, pos, gone),
        gone.len() <= k,
    ensures
        mesh_connected(nodes, c),
{
    assert forall|t: int| 0 <= t < c.len() implies node_ids(nodes).contains(#[trigger] c[t].from@)
        && node_ids(nodes).contains(c[t].to@) by {
        let q = pos[t];
        assert(0 <= q < links.len() && c[t] == links[q]);
        let l = links[q];
        assert(node_ids(nodes).contains(links[q].from@));
        assert(node_ids(nodes).contains(l.to@));
    }
    assert forall|i: int, j: int| 0 <= i < nodes.len() && 0 <= j < nodes.len() implies reachable(
        c,
        #[trigger] nodes[i].id@,
        #[trigger] nodes[j].id@,
    ) by {
        let full = full_mask(c.len());
        if i == j {
            lemma_walk_here(c, full, nodes[i].id@);
        } else if i < j {
            lemma_survives_any_k_failures(nodes, links, k, gone, i, j);
            lemma_walk_survives_thinning(links, c, pos, gone, nodes[i].id@, nodes[j].id@);
        } else {
            lemma_survives_any_k_failures(nodes, links, k, gone, j, i);
            lemma_walk_survives_thinning(links, c, pos, gone, nodes[j].id@, nodes[i].id@);
            lemma_connected_symm(c, full, nodes[j].id@, nodes[i].id@);
        }
    }
    lemma_connected_iff_all_pairs_reach(nodes, c);
}

/// A mesh of k-resilience `k > 0` survives failures: in a well-formed mesh,
/// failures that together take out at most `k` links (a failure takes out
/// every link joining its two endpoints) leave it connected, so
/// `survives_failures` answers yes.
pub proof fn lemma_survives_failures_within_k(
    nodes: Seq<MeshNode>,
    links: Seq<HyphaeLink>,
    k: nat,
    failures: Seq<LinkFailure>,
)
    requires
        well_formed_mesh(nodes, links),
        is_k_resilience(nodes, links, k),
        k > 0,
        links.len() <= links_after_failures(links, failures).len() + k,
    ensures
        mesh_connected(nodes, links_after_failures(links, failures)),
{
    let (pos, gone) = lemma_failures_thin(links, failures);
    lemma_thinned_connected(nodes, links, k, links_after_failures(links, failures), pos, gone);
}

/// A mesh of k-resilience `k > 0` has no bridge among its links whose two
/// endpoints are joined by at most `k` links: `find_bridges` lists none of
/// them.
pub proof fn lemma_resilient_link_not_bridge(nodes: Seq<MeshNode>, links: Seq<HyphaeLink>, k: nat, idx: int)
    requires
        well_formed_mesh(nodes, links),
        is_k_resilience(nodes, links, k),
        k > 0,
        0 <= idx < links.len(),
        links.len() <= links_avoiding(links, links[idx].from@, links[idx].to@).len() + k,
    ensures
        !is_bridge(nodes, links, links[idx]),
{
    let l = links[idx];
    let (pos, gone) = lemma_avoiding_thins(links, l.from@, l.to@);
    lemma_thinned_connected(nodes, links, k, links_avoiding(links, l.from@, l.to@), pos, gone);
}

/// The number of link ends at `x` (a loop on `x` counts twice).
pub open spec fn degree(links: Seq<HyphaeLink>, x: Seq<char>) -> nat
    decreases links.len(),
{
    if links.len() == 0 {
        0
    } else {
        degree(links.drop_last(), x) + (if links.last().from@ == x {
            1nat
        } else {
            0nat
        }) + (if links.last().to@ == x {
            1nat
        } else {
            0nat
        })
    }
}

/// The summed degrees of the identifiers.
pub open spec fn degree_sum(links: Seq<HyphaeLink>, ids: Seq<Seq<char>>) -> nat
    decreases ids.len(),
{
    if ids.len() == 0 {
        0
    } else {
        degree_sum(links, ids.drop_last()) + degree(links, ids.last())
    }
}

/// How many times `x` occurs in `ids`.
pub open spec fn occurrences(ids: Seq<Seq<char>>, x: Seq<char>) -> nat
    decreases ids.len(),
{
    if ids.len() == 0 {
        0
    } else {
        occurrences(ids.drop_last(), x) + if ids.last() == x {
            1nat
        } else {
            0nat
        }
    }
}

/// The indices below `n` of the links with an end at `x`.
pub open spec fn touching(links: Seq<HyphaeLink>, x: Seq<char>, n: int) -> Seq<int>
    decreases n,
{
    if n <= 0 {
        Seq::empty()
    } else {
        let rest = touching(links, x, n - 1);
        if links[n - 1].from@ == x || links[n - 1].to@ == x {
            rest.push(n - 1)
        } else {
            rest
        }
    }
}

proof fn lemma_occurrences_once(ids: Seq<Seq<char>>, x: Seq<char>)
    requires
        ids.no_duplicates(),
        ids.contains(x),
    ensures
        occurrences(ids, x) == 1,
    decreases ids.len(),
{
    let front = ids.drop_last();
    if ids.last() == x {
        assert(!front.contains(x)) by {
            if front.contains(x) {
                let k = front.index_of(x);
                assert(ids[k] == ids[ids.len() - 1]);
            }
        }
        lemma_occurrences_none(front, x);
    } else {
        let k = ids.index_of(x);
        assert(front[k] == x);
        lemma_occurrences_once(front, x);
    }
}

proof fn lemma_occurrences_none(ids: Seq<Seq<char>>, x: Seq<char>)
    requires
        !ids.contains(x),
    ensures
        occurrences(ids, x) == 0,
    decreases ids.len(),
{
    if ids.len() > 0 {
        assert(ids[ids.len() - 1] != x);
        lemma_occurrences_none(ids.drop_last(), x);
    }
}

/// One more link adds its two ends to the summed degrees.
proof fn lemma_degree_sum_step(links: Seq<HyphaeLink>, ids: Seq<Seq<char>>)
    requires
        links.len() > 0,
    ensures
        degree_sum(links, ids) == degree_sum(links.drop_last(), ids) + occurrences(ids, links.last().from@)
            + occurrences(ids, links.last().to@),
    decreases ids.len(),
{
    if ids.len() > 0 {
        lemma_degree_sum_step(links, ids.drop_last());
    }
}

/// Handshake: in a well-formed mesh the degrees of the nodes add up to
/// twice the number of links.
proof fn lemma_handshake(nodes: Seq<MeshNode>, links: Seq<HyphaeLink>)
    requires
        well_formed_mesh(nodes, links),
    ensures
        degree_sum(links, node_ids(nodes)) == 2 * links.len(),
    decreases links.len(),
{
    let ids = node_ids(nodes);
    if links.len() == 0 {
        lemma_degree_sum_zero(links, ids);
    } else {
        let front = links.drop_last();
        assert(well_formed_mesh(nodes, front)) by {
            assert forall|i: int| 0 <= i < front.len() implies ids.contains(#[trigger] front[i].from@)
                && ids.contains(front[i].to@) by {
                assert(front[i] == links[i]);
                assert(ids.contains(links[i].from@) && ids.contains(links[i].to@));
            }
        }
        lemma_handshake(nodes, front);
        lemma_degree_sum_step(links, ids);
        let l = links[links.len() - 1];
        assert(ids.contains(l.from@) && ids.contains(l.to@));
        lemma_occurrences_once(ids, l.from@);
        lemma_occurrences_once(ids, l.to@);
    }
}

proof fn lemma_degree_sum_zero(links: Seq<HyphaeLink>, ids: Seq<Seq<char>>)
    requires
        links.len() == 0,
    ensures
        degree_sum(links, ids) == 0,
    decreases ids.len(),
{
    if ids.len() > 0 {
        lemma_degree_sum_zero(links, ids.drop_last());
    }
}

/// Degrees of at least two everywhere add up to at least twice the count.
proof fn lemma_degree_sum_lower(links: Seq<HyphaeLink>, ids: Seq<Seq<char>>)
    requires
        forall|k: int| 0 <= k < ids.len() ==> degree(links, #[trigger] ids[k]) >= 2,
    ensures
        degree_sum(links, ids) >= 2 * ids.len(),
    decreases ids.len(),
{
    if ids.len() > 0 {
        let front = ids.drop_last();
        assert forall|k: int| 0 <= k < front.len() implies degree(links, #[trigger] front[k]) >= 2 by {
            assert(front[k] == ids[k]);
        }
        lemma_degree_sum_lower(links, front);
        assert(degree(links, ids[ids.len() - 1]) >= 2);
    }
}

/// The links touching `x` are listed, and no more of them than its degree.
proof fn lemma_touching(links: Seq<HyphaeLink>, x: Seq<char>, n: int)
    requires
        0 <= n <= links.len(),
    ensures
        touching(links, x, n).len() <= degree(links.take(n), x),
        forall|i: int|
            0 <= i < n && (links[i].from@ == x || links[i].to@ == x) ==> #[trigger] touching(links, x, n).contains(i),
    decreases n,
{
    if n > 0 {
        lemma_touching(links, x, n - 1);
        assert(links.take(n).drop_last() =~= links.take(n - 1));
        let rest = touching(links, x, n - 1);
        if links[n - 1].from@ == x || links[n - 1].to@ == x {
            let t = rest.push(n - 1);
            assert(t[rest.len() as int] == n - 1);
            assert forall|i: int|
                0 <= i < n && (links[i].from@ == x || links[i].to@ == x) implies #[trigger] t.contains(i) by {
                if i < n - 1 {
                    assert(rest.contains(i));
                    let k = rest.index_of(i);
                    assert(t[k] == i);
                } else {
                    assert(t[rest.len() as int] == i);
                }
            }
        }
    }
}

/// A mesh with fewer links than nodes survives no failure: a tree, with one
/// link fewer than it has nodes, has k-resilience zero.  Some node has at
/// most one link, and its failure cuts that node off.
pub proof fn lemma_few_links_no_resilience(nodes: Seq<MeshNode>, links: Seq<HyphaeLink>)
    requires
        well_formed_mesh(nodes, links),
        links.len() < nodes.len(),
    ensures
        is_k_resilience(nodes, links, 0),
{
    if nodes.len() >= 2 && mesh_connected(nodes, links) {
        let ids = node_ids(nodes);
        lemma_handshake(nodes, links);
        if forall|k: int| 0 <= k < ids.len() ==> degree(links, #[trigger] ids[k]) >= 2 {
            lemma_degree_sum_lower(links, ids);
            assert(false);
        }
        let leaf = choose|k: int| 0 <= k < ids.len() && degree(links, #[trigger] ids[k]) < 2;
        let other: int = if leaf == 0 { 1 } else { 0 };
        let x = ids[leaf];
        let y = ids[other];
        assert(x != y);
        let n = links.len() as int;
        let removed = touching(links, x, n);
        lemma_touching(links, x, n);
        assert(links.take(n) =~= links);
        let mask = mask_without(links.len(), removed);
        let single = Set::<Seq<char>>::empty().insert(x);
        assert(!connected_in(links, mask, x, y)) by {
            if connected_in(links, mask, x, y) {
                let (ns, es) = choose|ns: Seq<Seq<char>>, es: Seq<int>| #[trigger] is_walk_between(links, mask, ns, es, x, y);
                assert forall|i: int, p: Seq<char>, q: Seq<char>|
                    0 <= i < links.len() && i < mask.len() && mask[i] && #[trigger] joins(links[i], p, q) && single.contains(p)
                    implies single.contains(q) by {
                    assert(links[i].from@ == x || links[i].to@ == x);
                    assert(removed.contains(i));
                }
                lemma_closed_set_holds_walk(links, mask, single, ns, es, x, y);
            }
        }
        let (a, b) = if leaf < other { (x, y) } else { (y, x) };
        assert(!connected_in(links, mask, a, b)) by {
            if connected_in(links, mask, a, b) {
                lemma_connected_symm(links, mask, a, b);
            }
        }
        lemma_edge_connectivity_exists(links, a, b);
        let c = choose|c: nat| #[trigger] is_edge_connectivity(links, a, b, c);
        assert(c <= removed.len());
        let (i0, j0) = if leaf < other { (leaf, other) } else { (other, leaf) };
        assert(ids[i0] == nodes[i0].id@ && ids[j0] == nodes[j0].id@);
        assert(pair_attains(links, nodes[i0].id@, nodes[j0].id@, 0));
        assert forall|i: int, j: int| 0 <= i < j < nodes.len() implies #[trigger] pair_exceeds(
            links,
            nodes[i].id@,
            nodes[j].id@,
            0,
        ) by {
            lemma_edge_connectivity_exists(links, nodes[i].id@, nodes[j].id@);
        }
    }
}

/// No link left by `links_avoiding` joins the two nodes it avoids.
proof fn lemma_avoiding_avoids(links: Seq<HyphaeLink>, u: Seq<char>, v: Seq<char>)
    ensures
        forall|t: int|
            0 <= t < links_avoiding(links, u, v).len() ==> !joins(#[trigger] links_avoiding(links, u, v)[t], u, v),
    decreases links.len(),
{
    if links.len() > 0 {
        lemma_avoiding_avoids(links.drop_last(), u, v);
        let rest = links_avoiding(links.drop_last(), u, v);
        let all = links_avoiding(links, u, v);
        assert forall|t: int| 0 <= t < all.len() implies !joins(#[trigger] all[t], u, v) by {
            if t < rest.len() {
                assert(all[t] == rest[t]);
            }
        }
    }
}

/// A walk over the links kept is a walk over the original links that
/// crosses only kept ones.
proof fn lemma_kept_walk(
    a: Seq<HyphaeLink>,
    c: Seq<HyphaeLink>,
    pos: Seq<int>,
    gone: Seq<int>,
    x: Seq<char>,
    y: Seq<char>,
    mask: Seq<bool>,
)
    requires
        thins(a, c, pos, gone),
        reachable(c, x, y),
        mask.len() == a.len(),
        forall|t: int| 0 <= t < pos.len() ==> mask[#[trigger] pos[t]],
    ensures
        connected_in(a, mask, x, y),
{
    let full = full_mask(c.len());
    let (ns, es) = choose|ns: Seq<Seq<char>>, es: Seq<int>| #[trigger] is_walk_between(c, full, ns, es, x, y);
    let es2 = es.map_values(|t: int| pos[t]);
    assert forall|k: int| 0 <= k < es2.len() implies 0 <= #[trigger] es2[k] < a.len() && joins(
        a[es2[k]],
        ns[k],
        ns[k + 1],
    ) by {
        assert(es2[k] == pos[es[k]]);
    }
    assert forall|k: int| 0 <= k < es2.len() implies #[trigger] mask[es2[k]] by {
        assert(es2[k] == pos[es[k]]);
    }
    assert(is_walk_between(a, mask, ns, es2, x, y));
}

/// A connected mesh of k-resilience zero has a bridge: in a well-formed
/// mesh of at least two nodes, some single link's failure separates two
/// nodes, and failing every link between its endpoints disconnects the mesh.
pub proof fn lemma_no_resilience_has_bridge(nodes: Seq<MeshNode>, links: Seq<HyphaeLink>)
    requires
        well_formed_mesh(nodes, links),
        nodes.len() >= 2,
        mesh_connected(nodes, links),
        is_k_resilience(nodes, links, 0),
    ensures
        exists|idx: int| 0 <= idx < links.len() && #[trigger] is_bridge(nodes, links, links[idx]),
{
    lemma_some_k_plus_one_failures_separate(nodes, links, 0);
    let (i, j, removed) = choose|i: int, j: int, removed: Seq<int>|
        0 <= i < j < nodes.len() && removed.len() == 1 && !#[trigger] connected_in(
            links,
            mask_without(links.len(), removed),
            nodes[i].id@,
            nodes[j].id@,
        );
    let e = removed[0];
    let mask = mask_without(links.len(), removed);
    lemma_connected_iff_all_pairs_reach(nodes, links);
    if !(0 <= e < links.len()) {
        assert(reachable(links, nodes[i].id@, nodes[j].id@));
        let (ns, es) = choose|ns: Seq<Seq<char>>, es: Seq<int>|
            #[trigger] is_walk_between(links, full_mask(links.len()), ns, es, nodes[i].id@, nodes[j].id@);
        assert forall|t: int| 0 <= t < es.len() implies #[trigger] mask[es[t]] by {
            assert(removed =~= seq![e]);
        }
        assert(is_walk_between(links, mask, ns, es, nodes[i].id@, nodes[j].id@));
        assert(false);
    }
    let l = links[e];
    let kept = links_avoiding(links, l.from@, l.to@);
    if mesh_connected(nodes, kept) {
        let (pos, gone) = lemma_avoiding_thins(links, l.from@, l.to@);
        assert(well_formed_mesh(nodes, kept)) by {
            assert forall|t: int| 0 <= t < kept.len() implies node_ids(nodes).contains(#[trigger] kept[t].from@)
                && node_ids(nodes).contains(kept[t].to@) by {
                let q = pos[t];
                assert(0 <= q < links.len() && kept[t] == links[q]);
                let m = links[q];
                assert(node_ids(nodes).contains(links[q].from@));
                assert(node_ids(nodes).contains(m.to@));
            }
        }
        lemma_connected_iff_all_pairs_reach(nodes, kept);
        assert(reachable(kept, nodes[i].id@, nodes[j].id@));
        lemma_avoiding_avoids(links, l.from@, l.to@);
        assert forall|t: int| 0 <= t < pos.len() implies mask[#[trigger] pos[t]] by {
            assert(kept[t] == links[pos[t]]);
            assert(!joins(kept[t], l.from@, l.to@));
            assert(removed =~= seq![e]);
        }
        lemma_kept_walk(links, kept, pos, gone, nodes[i].id@, nodes[j].id@, mask);
        assert(false);
    }
    assert(is_bridge(nodes, links, links[e]));
}

/// A connected mesh without bridges survives a failure: in a well-formed
/// mesh of at least two nodes where no link is a bridge, the k-resilience is
/// at least one.
pub proof fn lemma_no_bridge_some_resilience(nodes: Seq<MeshNode>, links: Seq<HyphaeLink>, k: nat)
    requires
        well_formed_mesh(nodes, links),
        nodes.len() >= 2,
        mesh_connected(nodes, links),
        is_k_resilience(nodes, links, k),
        forall|idx: int| 0 <= idx < links.len() ==> !#[trigger] is_bridge(nodes, links, links[idx]),
    ensures
        k >= 1,
{
    if k == 0 {
        lemma_no_resilience_has_bridge(nodes, links);
    }
}

proof fn lemma_avoiding_from_links(links: Seq<HyphaeLink>, u: Seq<char>, v: Seq<char>)
    ensures
        forall|i: int|
            0 <= i < links_avoiding(links, u, v).len() ==> links.contains(#[trigger] links_avoiding(links, u, v)[i]),
    decreases links.len(),
{
    if links.len() > 0 {
        let front = links.drop_last();
        lemma_avoiding_from_links(front, u, v);
        let rest = links_avoiding(front, u, v);
        assert forall|i: int| 0 <= i < links_avoiding(links, u, v).len() implies links.contains(
            #[trigger] links_avoiding(links, u, v)[i],
        ) by {
            if i < rest.len() {
                assert(links_avoiding(links, u, v)[i] == rest[i]);
                let m = front.index_of(rest[i]);
                assert(links[m] == front[m]);
            } else {
                assert(links[links.len() - 1] == links.last());
            }
        }
    }
}

proof fn lemma_avoiding_keeps_all(links: Seq<HyphaeLink>, u: Seq<char>, v: Seq<char>)
    requires
        forall|m: int| 0 <= m < links.len() ==> !joins(#[trigger] links[m], u, v),
    ensures
        links_avoiding(links, u, v).len() == links.len(),
    decreases links.len(),
{
    if links.len() > 0 {
        let front = links.drop_last();
        assert forall|m: int| 0 <= m < front.len() implies !joins(#[trigger] front[m], u, v) by {
            assert(front[m] == links[m]);
        }
        lemma_avoiding_keeps_all(front, u, v);
        assert(!joins(links[links.len() - 1], u, v));
    }
}

/// Without parallel links, failing one pair of nodes takes out at most one
/// link, and what is left has no parallel links either.
proof fn lemma_avoiding_drops_at_most_one(links: Seq<HyphaeLink>, u: Seq<char>, v: Seq<char>)
    requires
        no_parallel_links(links),
    ensures
        links_avoiding(links, u, v).len() + 1 >= links.len(),
        no_parallel_links(links_avoiding(links, u, v)),
    decreases links.len(),
{
    if links.len() > 0 {
        let front = links.drop_last();
        let x = links.last();
        assert(no_parallel_links(front)) by {
            assert forall|i: int, j: int|
                #![trigger front[i], front[j]]
                0 <= i < j < front.len() implies !joins(front[i], front[j].from@, front[j].to@) by {
                assert(front[i] == links[i] && front[j] == links[j]);
            }
        }
        lemma_avoiding_drops_at_most_one(front, u, v);
        let rest = links_avoiding(front, u, v);
        if joins(x, u, v) {
            assert forall|m: int| 0 <= m < front.len() implies !joins(#[trigger] front[m], u, v) by {
                assert(front[m] == links[m]);
                assert(links[links.len() - 1] == x);
                assert(!joins(links[m], links[links.len() - 1].from@, links[links.len() - 1].to@));
            }
            lemma_avoiding_keeps_all(front, u, v);
        } else {
            lemma_avoiding_from_links(front, u, v);
            let c = rest.push(x);
            assert(links_avoiding(links, u, v) == c);
            assert forall|i: int, j: int|
                #![trigger c[i], c[j]]
                0 <= i < j < c.len() implies !joins(c[i], c[j].from@, c[j].to@) by {
                if j < rest.len() {
                    assert(c[i] == rest[i] && c[j] == rest[j]);
                } else {
                    assert(c[i] == rest[i]);
                    assert(front.contains(rest[i]));
                    let m = front.index_of(rest[i]);
                    assert(links[m] == front[m]);
                    assert(links[links.len() - 1] == x);
                    assert(!joins(links[m], links[links.len() - 1].from@, links[links.len() - 1].to@));
                }
            }
        }
    }
}

proof fn lemma_failures_drop_at_most_one_each(links: Seq<HyphaeLink>, failures: Seq<LinkFailure>)
    requires
        no_parallel_links(links),
    ensures
        links_after_failures(links, failures).len() + failures.len() >= links.len(),
        no_parallel_links(links_after_failures(links, failures)),
    decreases failures.len(),
{
    if failures.len() > 0 {
        lemma_failures_drop_at_most_one_each(links, failures.drop_last());
        let f = failures.last();
        lemma_avoiding_drops_at_most_one(links_after_failures(links, failures.drop_last()), f.from@, f.to@);
    }
}

/// A mesh survives as many failed links as its k-resilience: in a
/// well-formed mesh where no two links join the same two nodes, with
/// k-resilience `k > 0`, any `k` failures leave it connected, so
/// `survives_failures` answers yes.
pub proof fn lemma_survives_k_failures(
    nodes: Seq<MeshNode>,
    links: Seq<HyphaeLink>,
    k: nat,
    failures: Seq<LinkFailure>,
)
    requires
        well_formed_mesh(nodes, links),
        no_parallel_links(links),
        is_k_resilience(nodes, links, k),
        k > 0,
        failures.len() <= k,
    ensures
        mesh_connected(nodes, links_after_failures(links, failures)),
{
    lemma_failures_drop_at_most_one_each(links, failures);
    lemma_survives_failures_within_k(nodes, links, k, failures);
}

proof fn lemma_bridge_keys_empty(nodes: Seq<MeshNode>, links: Seq<HyphaeLink>, n: int)
    requires
        0 <= n <= links.len(),
    ensures
        bridge_keys(nodes, links, n).len() == 0 <==> forall|idx: int|
            0 <= idx < n ==> !#[trigger] is_bridge(nodes, links, links[idx]),
    decreases n,
{
    if n > 0 {
        lemma_bridge_keys_empty(nodes, links, n - 1);
    }
}

/// What a resilience report says hangs together: in a well-formed mesh
/// where no two links join the same two nodes, a disconnected mesh and a
/// mesh with a bridge both have k-resilience zero, and a connected mesh of
/// at least two nodes without bridges has k-resilience at least one.
pub proof fn lemma_report_consistent(nodes: Seq<MeshNode>, links: Seq<HyphaeLink>, k: nat)
    requires
        well_formed_mesh(nodes, links),
        no_parallel_links(links),
        is_k_resilience(nodes, links, k),
    ensures
        !mesh_connected(nodes, links) ==> k == 0,
        bridge_list(nodes, links).len() > 0 ==> k == 0,
        mesh_connected(nodes, links) && nodes.len() >= 2 && bridge_list(nodes, links).len() == 0 ==> k >= 1,
{
    lemma_bridge_keys_empty(nodes, links, links.len() as int);
    if bridge_list(nodes, links).len() > 0 && k > 0 {
        let idx = choose|idx: int| 0 <= idx < links.len() && #[trigger] is_bridge(nodes, links, links[idx]);
        lemma_avoiding_drops_at_most_one(links, links[idx].from@, links[idx].to@);
        lemma_resilient_link_not_bridge(nodes, links, k, idx);
    }
    if mesh_connected(nodes, links) && nodes.len() >= 2 && bridge_list(nodes, links).len() == 0 {
        lemma_no_bridge_some_resilience(nodes, links, k);
    }
}

proof fn lemma_bridge_keys_filter(nodes: Seq<MeshNode>, links: Seq<HyphaeLink>, n: int)
    requires
        0 <= n <= links.len(),
    ensures
        bridge_keys(nodes, links, n) == links.take(n).filter(|l: HyphaeLink| is_bridge(nodes, links, l)).map_values(
            |l: HyphaeLink| pair_key(l.from@, l.to@),
        ),
    decreases n,
{
    reveal(Seq::filter);
    let pred = |l: HyphaeLink| is_bridge(nodes, links, l);
    let key = |l: HyphaeLink| pair_key(l.from@, l.to@);
    if n == 0 {
        assert(links.take(0) =~= Seq::<HyphaeLink>::empty());
        assert(links.take(0).filter(pred).map_values(key) =~= Seq::<Seq<char>>::empty());
    } else {
        lemma_bridge_keys_filter(nodes, links, n - 1);
        let t = links.take(n);
        assert(t.drop_last() =~= links.take(n - 1));
        assert(t.last() == links[n - 1]);
        let f0 = links.take(n - 1).filter(pred);
        if pred(links[n - 1]) {
            assert(t.filter(pred) == f0.push(links[n - 1]));
            assert(f0.push(links[n - 1]).map_values(key) =~= f0.map_values(key).push(key(links[n - 1])));
        } else {
            assert(t.filter(pred) == f0);
        }
    }
}

/// The critical links listed are exactly the links that are bridges, each
/// by its key, in link order (none for a mesh of fewer than two nodes).
pub proof fn lemma_bridges_are_the_bridge_links(nodes: Seq<MeshNode>, links: Seq<HyphaeLink>)
    ensures
        nodes.len() >= 2 ==> bridge_list(nodes, links) == links.filter(|l: HyphaeLink| is_bridge(nodes, links, l)).map_values(
            |l: HyphaeLink| pair_key(l.from@, l.to@),
        ),
        nodes.len() < 2 ==> bridge_list(nodes, links).len() == 0,
{
    lemma_bridge_keys_filter(nodes, links, links.len() as int);
    assert(links.take(links.len() as int) =~= links);
}

} // verus!
