// Exact values and laws of the library on concrete meshes.  Rates are in
// units of 10^-18 (`ppm` converts from parts per million), latencies in
// microseconds, positions in millionths.
use error_forest_hub::hub_relay::{HubRelay, RelayHop, RelayResult};
use error_forest_hub::hyphae_link::{ErrorProfile, HyphaeLink};
use error_forest_hub::mesh::{Mesh, MeshNode};
use error_forest_hub::mesh_routing::{MeshRouter, Route, RoutingAlgorithm};
use error_forest_hub::resilience::{LinkFailure, ResilienceAnalyzer};
use error_forest_hub::spore_broadcast::SporeBroadcast;

const U: i64 = 1_000_000;

/// A rate given in parts per million.
fn ppm(x: u64) -> u64 {
    x * 1_000_000_000_000
}

fn s(x: &str) -> String {
    x.to_string()
}

fn triangle() -> Mesh {
    Mesh::new()
        .with_nodes(vec![
            MeshNode::new("A", true, (0, 0)),
            MeshNode::new("B", true, (U, 0)),
            MeshNode::new("C", false, (U / 2, 866_000)),
        ])
        .with_links(vec![
            HyphaeLink::new("A", "B", 100, ppm(10_000)),
            HyphaeLink::new("B", "C", 80, ppm(20_000)),
            HyphaeLink::new("A", "C", 60, ppm(30_000)),
        ])
}

fn line() -> Mesh {
    Mesh::new()
        .with_nodes(vec![
            MeshNode::new("A", true, (0, 0)),
            MeshNode::new("B", true, (U, 0)),
            MeshNode::new("C", false, (2 * U, 0)),
            MeshNode::new("D", false, (3 * U, 0)),
        ])
        .with_links(vec![
            HyphaeLink::new("A", "B", 100, ppm(10_000)),
            HyphaeLink::new("B", "C", 80, ppm(20_000)),
            HyphaeLink::new("C", "D", 60, ppm(30_000)),
        ])
}

fn rich() -> Mesh {
    Mesh::new()
        .with_nodes(vec![
            MeshNode::new("S", true, (0, 0)),
            MeshNode::new("H1", true, (U, U)),
            MeshNode::new("H2", true, (U, -U)),
            MeshNode::new("L1", false, (2 * U, U)),
            MeshNode::new("D", true, (3 * U, 0)),
        ])
        .with_links(vec![
            HyphaeLink::new("S", "H1", 100, ppm(10_000)),
            HyphaeLink::new("S", "H2", 90, ppm(20_000)),
            HyphaeLink::new("H1", "L1", 80, ppm(10_000)),
            HyphaeLink::new("H1", "D", 70, ppm(20_000)),
            HyphaeLink::new("H2", "D", 85, ppm(15_000)),
            HyphaeLink::new("L1", "D", 60, ppm(30_000)),
            HyphaeLink::new("H1", "H2", 95, ppm(5_000)),
        ])
}

fn three_paths() -> Mesh {
    Mesh::new()
        .with_nodes(vec![
            MeshNode::new("S", true, (0, 0)),
            MeshNode::new("M1", false, (U, U)),
            MeshNode::new("M2", false, (U, 0)),
            MeshNode::new("M3", false, (U, -U)),
            MeshNode::new("D", true, (2 * U, 0)),
        ])
        .with_links(vec![
            HyphaeLink::new("S", "M1", 100, ppm(10_000)),
            HyphaeLink::new("S", "M2", 100, ppm(10_000)),
            HyphaeLink::new("S", "M3", 100, ppm(10_000)),
            HyphaeLink::new("M1", "D", 100, ppm(10_000)),
            HyphaeLink::new("M2", "D", 100, ppm(10_000)),
            HyphaeLink::new("M3", "D", 100, ppm(10_000)),
        ])
}

fn complete_four() -> Mesh {
    Mesh::new()
        .with_nodes(vec![
            MeshNode::new("A", true, (0, 0)),
            MeshNode::new("B", false, (U, 0)),
            MeshNode::new("C", false, (0, U)),
            MeshNode::new("D", true, (U, U)),
        ])
        .with_links(vec![
            HyphaeLink::new("A", "B", 10, ppm(10_000)),
            HyphaeLink::new("A", "C", 10, ppm(10_000)),
            HyphaeLink::new("A", "D", 10, ppm(10_000)),
            HyphaeLink::new("B", "C", 10, ppm(10_000)),
            HyphaeLink::new("B", "D", 10, ppm(10_000)),
            HyphaeLink::new("C", "D", 10, ppm(10_000)),
        ])
}

fn ids(v: &[String]) -> Vec<&str> {
    v.iter().map(|x| x.as_str()).collect()
}

fn bottleneck_of(mesh: &Mesh, path: &[String]) -> u64 {
    let router = MeshRouter::new(mesh);
    let mut b = u64::MAX;
    for w in path.windows(2) {
        let l = router.find_link(&w[0], &w[1]).unwrap();
        b = b.min(l.bandwidth);
    }
    b
}

// === LINKS ===

#[test]
fn link_id_puts_the_smaller_endpoint_first() {
    assert_eq!(HyphaeLink::new("B", "A", 1, ppm(0)).id(), "A-B");
    assert_eq!(HyphaeLink::new("A", "B", 1, ppm(0)).id(), "A-B");
    assert_eq!(HyphaeLink::new("H2", "H1", 1, ppm(0)).id(), "H1-H2");
    assert_eq!(HyphaeLink::new("Ab", "A", 1, ppm(0)).id(), "A-Ab");
    assert_eq!(HyphaeLink::new("x", "x", 1, ppm(0)).id(), "x-x");
}

#[test]
fn link_failure_id_keeps_the_given_order() {
    assert_eq!(LinkFailure::new("S", "H1").link_id, "S-H1");
    assert_eq!(LinkFailure::new("H1", "S").link_id, "H1-S");
}

#[test]
fn link_defaults_and_reliability_clamp() {
    let l = HyphaeLink::new("A", "B", 7, ppm(250_000));
    assert_eq!(l.latency, 1_000);
    assert_eq!(l.reliability(), ppm(750_000));
    assert_eq!(l.error_profile, ErrorProfile::Random { ber: ppm(250_000) });
    assert_eq!(HyphaeLink::new("A", "B", 7, ppm(1_000_000)).reliability(), 0);
    assert_eq!(HyphaeLink::new("A", "B", 7, ppm(3_000_000)).reliability(), 0);
    assert_eq!(HyphaeLink::new("A", "B", 7, ppm(0)).reliability(), ppm(1_000_000));
}

// === MESH ===

#[test]
fn distance_is_symmetric_and_rounded_down() {
    let a = MeshNode::new("A", false, (0, 0));
    let b = MeshNode::new("B", false, (U, U));
    assert_eq!(a.distance_to(&b), 1_414_213);
    assert_eq!(b.distance_to(&a), 1_414_213);
    assert_eq!(a.distance_to(&a), 0);
    let c = MeshNode::new("C", false, (-3 * U, -4 * U));
    assert_eq!(a.distance_to(&c), 5 * 1_000_000);
}

#[test]
fn get_node_finds_the_first_match() {
    let mut mesh = triangle();
    mesh.add_node(MeshNode::new("B", false, (9, 9)));
    let b = mesh.get_node("B").unwrap();
    assert!(b.is_hub);
    assert_eq!(b.position, (U, 0));
    assert!(mesh.get_node("Z").is_none());
}

#[test]
fn hubs_in_node_order() {
    let mesh = rich();
    let hubs: Vec<&str> = mesh.hub_nodes().iter().map(|n| n.id.as_str()).collect();
    assert_eq!(hubs, vec!["S", "H1", "H2", "D"]);
}

#[test]
fn neighbors_in_link_order() {
    let mesh = triangle();
    assert_eq!(mesh.neighbors("A"), vec!["B", "C"]);
    assert_eq!(mesh.neighbors("C"), vec!["B", "A"]);
    assert!(mesh.neighbors("Z").is_empty());
}

#[test]
fn bfs_finds_exactly_the_reachable_nodes() {
    let mesh = line().without_link_by_endpoints("C", "B");
    let mut found = mesh.bfs_from("A");
    found.sort();
    assert_eq!(found, vec![s("A"), s("B")]);
    let mut rest = mesh.bfs_from("D");
    rest.sort();
    assert_eq!(rest, vec![s("C"), s("D")]);
    assert_eq!(mesh.bfs_from("Z"), vec![s("Z")]);
}

#[test]
fn adjacency_lists_each_endpoint_once() {
    let mesh = triangle();
    let adj = mesh.adjacency();
    let keys: Vec<&str> = adj.iter().map(|(k, _)| k.as_str()).collect();
    assert_eq!(keys, vec!["A", "B", "C"]);
    assert_eq!(adj[0].1, vec![(s("B"), 0), (s("C"), 2)]);
    assert_eq!(adj[1].1, vec![(s("A"), 0), (s("C"), 1)]);
    assert_eq!(adj[2].1, vec![(s("B"), 1), (s("A"), 2)]);
}

#[test]
fn without_link_by_index() {
    let mesh = triangle();
    let fewer = mesh.without_link(1);
    assert_eq!(fewer.links.len(), 2);
    assert_eq!(fewer.links[1].id(), "A-C");
    let same = mesh.without_link(7);
    assert_eq!(same.links.len(), 3);
    assert_eq!(same.nodes.len(), 3);
}

#[test]
fn without_link_by_endpoints_removes_both_directions() {
    let mut mesh = triangle();
    mesh.add_link(HyphaeLink::new("B", "A", 5, ppm(0)));
    let fewer = mesh.without_link_by_endpoints("A", "B");
    assert_eq!(fewer.links.len(), 2);
    assert!(fewer.links.iter().all(|l| l.id() != "A-B"));
}

#[test]
fn connected_iff_one_component() {
    for mesh in [triangle(), line(), rich(), three_paths(), complete_four()] {
        assert!(mesh.is_connected());
        assert_eq!(mesh.connected_components(), 1);
    }
    let split = line().without_link_by_endpoints("B", "C");
    assert!(!split.is_connected());
    assert_eq!(split.connected_components(), 2);
    let apart = Mesh::new().with_nodes(vec![
        MeshNode::new("A", false, (0, 0)),
        MeshNode::new("B", false, (0, 0)),
        MeshNode::new("C", false, (0, 0)),
    ]);
    assert_eq!(apart.connected_components(), 3);
    assert_eq!(Mesh::new().connected_components(), 0);
}

#[test]
fn connectivity_counts_identifiers_found() {
    // The check counts what the first node reaches against the number of
    // nodes: a link to an identifier outside the mesh counts too.
    let mesh = Mesh::new()
        .with_nodes(vec![MeshNode::new("A", false, (0, 0)), MeshNode::new("B", false, (0, 0))])
        .with_links(vec![HyphaeLink::new("A", "X", 1, ppm(0))]);
    assert!(mesh.is_connected());
}

// === ROUTING ===

#[test]
fn shortest_path_exact() {
    let mesh = triangle();
    let r = MeshRouter::new(&mesh).shortest_path("A", "C");
    assert_eq!(ids(&r.path), vec!["A", "C"]);
    assert_eq!(r.total_latency, 1_000);
    assert_eq!(r.reliability, ppm(970_000));
    assert_eq!(r.hops, 1);
}

#[test]
fn shortest_path_prefers_low_latency() {
    let mesh = Mesh::new()
        .with_nodes(vec![
            MeshNode::new("A", false, (0, 0)),
            MeshNode::new("B", false, (0, 0)),
            MeshNode::new("C", false, (0, 0)),
        ])
        .with_links(vec![
            HyphaeLink::with_details("A", "C", 1, 0, 5_000, ErrorProfile::Random { ber: 0 }),
            HyphaeLink::with_details("A", "B", 1, 0, 1_000, ErrorProfile::Random { ber: 0 }),
            HyphaeLink::with_details("B", "C", 1, 0, 1_500, ErrorProfile::Random { ber: 0 }),
        ]);
    let r = MeshRouter::new(&mesh).route("A", "C", &RoutingAlgorithm::ShortestPath);
    assert_eq!(ids(&r.path), vec!["A", "B", "C"]);
    assert_eq!(r.total_latency, 2_500);
    assert_eq!(r.reliability, ppm(1_000_000));
}

#[test]
fn most_reliable_path_exact() {
    let mesh = triangle();
    let r = MeshRouter::new(&mesh).most_reliable_path("A", "C");
    assert_eq!(ids(&r.path), vec!["A", "B", "C"]);
    assert_eq!(r.reliability, ppm(970_200));
    assert_eq!(r.total_latency, 2_000);
    assert_eq!(r.hops, 2);
}

#[test]
fn most_reliable_ignores_dead_links() {
    let mesh = Mesh::new()
        .with_nodes(vec![MeshNode::new("A", false, (0, 0)), MeshNode::new("B", false, (U, 0))])
        .with_links(vec![HyphaeLink::new("A", "B", 10, ppm(1_000_000))]);
    let router = MeshRouter::new(&mesh);
    let r = router.most_reliable_path("A", "B");
    assert!(!r.is_valid());
    assert_eq!(r.total_latency, u64::MAX);
    assert_eq!(r.reliability, 0);
    let sp = router.shortest_path("A", "B");
    assert_eq!(ids(&sp.path), vec!["A", "B"]);
    assert_eq!(sp.reliability, 0);
}

#[test]
fn widest_path_has_the_best_bottleneck() {
    let mesh = rich();
    let r = MeshRouter::new(&mesh).widest_path("S", "D");
    assert_eq!(r.path.first().unwrap(), "S");
    assert_eq!(r.path.last().unwrap(), "D");
    assert_eq!(bottleneck_of(&mesh, &r.path), 85);
    assert_eq!(r.total_latency, 1_000 * r.hops as u64);
}

#[test]
fn route_to_self_is_one_node() {
    let mesh = triangle();
    let router = MeshRouter::new(&mesh);
    for alg in [RoutingAlgorithm::ShortestPath, RoutingAlgorithm::MostReliable, RoutingAlgorithm::WidestPath] {
        let r = router.route("B", "B", &alg);
        assert_eq!(ids(&r.path), vec!["B"]);
        assert_eq!(r.hops, 0);
        assert_eq!(r.total_latency, 0);
        assert_eq!(r.reliability, ppm(1_000_000));
    }
}

#[test]
fn unknown_target_has_no_route() {
    let mesh = triangle();
    let r = MeshRouter::new(&mesh).route("A", "Z", &RoutingAlgorithm::WidestPath);
    assert!(!r.is_valid());
    assert_eq!(r.hops, 0);
}

#[test]
fn route_new_counts_hops() {
    assert_eq!(Route::new(vec![s("A"), s("B"), s("C")], 2_000, 970_000).hops, 2);
    assert_eq!(Route::new(vec![], 0, 0).hops, 0);
    assert_eq!(Route::none().total_latency, u64::MAX);
}

#[test]
fn all_simple_paths_of_a_triangle() {
    let mesh = triangle();
    let router = MeshRouter::new(&mesh);
    let paths = router.find_all_paths("A", "B", 10);
    assert_eq!(paths.len(), 2);
    let found: Vec<Vec<&str>> = paths.iter().map(|r| ids(&r.path)).collect();
    assert_eq!(found, vec![vec!["A", "B"], vec!["A", "C", "B"]]);
    for r in &paths {
        assert_eq!(r.total_latency, 1_000 * r.hops as u64);
    }
    let first = router.find_all_paths("A", "B", 1);
    assert_eq!(first.len(), 1);
    assert_eq!(ids(&first[0].path), vec!["A", "B"]);
    assert_eq!(router.find_all_paths("A", "B", 0).len(), 0);
    assert_eq!(ids(&router.find_all_paths("A", "A", 5)[0].path), vec!["A"]);
}

#[test]
fn three_disjoint_paths_are_all_found() {
    let mesh = three_paths();
    let paths = MeshRouter::new(&mesh).find_all_paths("S", "D", 10);
    assert_eq!(paths.len(), 3);
    for r in &paths {
        assert_eq!(r.hops, 2);
        assert_eq!(r.reliability, ppm(980_100));
    }
}

// === RESILIENCE ===

#[test]
fn k_resilience_of_complete_graph() {
    let mesh = complete_four();
    let analyzer = ResilienceAnalyzer::new(&mesh);
    assert_eq!(analyzer.compute_k_resilience(), 2);
    assert_eq!(analyzer.compare_with_tree(), (2, 0));
}

#[test]
fn k_resilience_mesh_survives_any_k_failures() {
    let mesh = complete_four();
    let analyzer = ResilienceAnalyzer::new(&mesh);
    let k = analyzer.compute_k_resilience();
    assert_eq!(k, 2);
    for i in 0..mesh.links.len() {
        for j in 0..mesh.links.len() {
            let a = &mesh.links[i];
            let b = &mesh.links[j];
            let failures = [LinkFailure::new(&a.from, &a.to), LinkFailure::new(&b.to, &b.from)];
            assert!(analyzer.survives_failures(&failures));
        }
    }
    let isolate = [LinkFailure::new("A", "B"), LinkFailure::new("A", "C"), LinkFailure::new("D", "A")];
    assert!(!analyzer.survives_failures(&isolate));
}

#[test]
fn three_path_mesh_survives_one_failure_not_two() {
    let mesh = three_paths();
    let analyzer = ResilienceAnalyzer::new(&mesh);
    assert_eq!(analyzer.compute_k_resilience(), 1);
    for l in &mesh.links {
        assert!(analyzer.survives_failures(&[LinkFailure::new(&l.from, &l.to)]));
    }
    assert!(!analyzer.survives_failures(&[LinkFailure::new("S", "M1"), LinkFailure::new("M1", "D")]));
    assert!(analyzer.find_bridges().is_empty());
}

#[test]
fn parallel_links_fail_together() {
    // Two nodes joined twice: k-resilience 1, but a failure takes out
    // every link between its endpoints, so that pair is a bridge.
    let mesh = Mesh::new()
        .with_nodes(vec![MeshNode::new("A", false, (0, 0)), MeshNode::new("B", false, (U, 0))])
        .with_links(vec![HyphaeLink::new("A", "B", 1, ppm(0)), HyphaeLink::new("B", "A", 1, ppm(0))]);
    let analyzer = ResilienceAnalyzer::new(&mesh);
    assert_eq!(analyzer.compute_k_resilience(), 1);
    assert_eq!(analyzer.find_bridges(), vec![s("A-B"), s("A-B")]);
}

#[test]
fn bridges_of_a_line_in_link_order() {
    let mut mesh = line();
    mesh.links[1] = HyphaeLink::new("C", "B", 80, ppm(20_000));
    let analyzer = ResilienceAnalyzer::new(&mesh);
    assert_eq!(analyzer.find_bridges(), vec![s("A-B"), s("B-C"), s("C-D")]);
}

#[test]
fn bridges_need_two_nodes() {
    let mesh = Mesh::new().with_nodes(vec![MeshNode::new("A", false, (0, 0))]);
    let analyzer = ResilienceAnalyzer::new(&mesh);
    assert!(analyzer.find_bridges().is_empty());
    assert_eq!(analyzer.compute_k_resilience(), 0);
}

#[test]
fn bottleneck_is_the_node_leaving_most_components() {
    let mesh = line();
    let analyzer = ResilienceAnalyzer::new(&mesh);
    assert_eq!(analyzer.find_bottleneck_node(), Some(s("B")));
    let tri = triangle();
    assert_eq!(ResilienceAnalyzer::new(&tri).find_bottleneck_node(), Some(s("A")));
    let empty = Mesh::new();
    assert_eq!(ResilienceAnalyzer::new(&empty).find_bottleneck_node(), None);
}

#[test]
fn report_of_a_line() {
    let mesh = line();
    let report = ResilienceAnalyzer::new(&mesh).analyze();
    assert_eq!(report.k_resilience, 0);
    assert_eq!(report.critical_links, vec![s("A-B"), s("B-C"), s("C-D")]);
    assert_eq!(report.bottleneck_node, Some(s("B")));
    assert_eq!(report.total_links, 3);
    assert_eq!(report.total_nodes, 4);
    assert!(report.is_connected);
}

#[test]
fn disconnected_mesh_has_zero_resilience() {
    let mesh = line().without_link_by_endpoints("B", "C");
    let report = ResilienceAnalyzer::new(&mesh).analyze();
    assert_eq!(report.k_resilience, 0);
    assert!(!report.is_connected);
}

// === HUB RELAY ===

#[test]
fn correction_is_exponential() {
    let relay = HubRelay::new(ppm(600_000));
    assert_eq!(relay.cumulative_error_correction(ppm(100_000), 0), ppm(100_000));
    assert_eq!(relay.cumulative_error_correction(ppm(100_000), 1), ppm(40_000));
    assert_eq!(relay.cumulative_error_correction(ppm(100_000), 2), ppm(16_000));
    assert_eq!(relay.cumulative_error_correction(ppm(100_000), 3), ppm(6_400));
    assert_eq!(relay.cumulative_error_correction(ppm(100_000), 4), ppm(2_560));
    assert_eq!(relay.cumulative_error_correction(ppm(100_000), 5), 1_024_000_000_000_000);
}

#[test]
fn correction_edge_factors() {
    assert_eq!(HubRelay::new(ppm(0)).cumulative_error_correction(ppm(123_456), 9), ppm(123_456));
    assert_eq!(HubRelay::new(ppm(1_000_000)).cumulative_error_correction(ppm(123_456), 1), 0);
    assert_eq!(HubRelay::new(ppm(2_000_000)).cumulative_error_correction(ppm(123_456), 1), 0);
    assert_eq!(HubRelay::new(ppm(500_000)).cumulative_error_correction(ppm(0), 5), 0);
    assert_eq!(HubRelay::new(ppm(500_000)).cumulative_error_correction(ppm(3), 1), 1_500_000_000_000);
    assert_eq!(HubRelay::new(ppm(500_000)).cumulative_error_correction(ppm(1), 1_000_000), 0);
}

#[test]
fn relay_hop_halves_a_tiny_error() {
    let hop = RelayHop::new("H", ppm(1), ppm(500_000));
    assert_eq!(hop.outgoing_error_rate, 500_000_000_000);
    assert_eq!(hop.incoming_error_rate, ppm(1));
    assert_eq!(hop.correction_factor, ppm(500_000));
}

#[test]
fn relay_exact_on_a_triangle() {
    let mesh = triangle();
    let relay = HubRelay::new(ppm(500_000));
    let r = relay.relay_along_path(&[s("A"), s("B")], &mesh, ppm(0));
    assert_eq!(r.hops.len(), 2);
    assert_eq!(r.hops[0].hub_id, "A");
    assert_eq!(r.hops[0].incoming_error_rate, ppm(10_000));
    assert_eq!(r.hops[0].outgoing_error_rate, ppm(5_000));
    assert_eq!(r.hops[1].hub_id, "B");
    assert_eq!(r.hops[1].incoming_error_rate, ppm(5_000));
    assert_eq!(r.hops[1].outgoing_error_rate, ppm(2_500));
    assert_eq!(r.final_error_rate, ppm(2_500));
    assert_eq!(r.reliability, ppm(997_500));
    assert_eq!(r.total_latency, 1_000);
    assert!(r.delivered);
    assert_eq!(ids(&r.path), vec!["A", "B"]);
}

#[test]
fn relay_with_custom_correction_is_exact() {
    // S is a hub (0.3), the link S-H1 adds 0.01, H1 corrects 0.9, the link
    // H1-D adds 0.02 and D corrects 0.3: the error left is 0.0018802.
    let mesh = rich();
    let relay = HubRelay::new(ppm(300_000)).with_hub_correction("H1", ppm(900_000));
    let r = relay.relay_along_path(&[s("S"), s("H1"), s("D")], &mesh, 0);
    let factors: Vec<u64> = r.hops.iter().map(|h| h.correction_factor).collect();
    assert_eq!(factors, vec![ppm(300_000), ppm(900_000), ppm(300_000)]);
    assert_eq!(r.final_error_rate, 1_880_200_000_000_000);
    assert!(r.delivered);
}

#[test]
fn relay_hops_never_raise_the_error() {
    let mesh = rich();
    let relay = HubRelay::new(ppm(250_000)).with_hub_correction("H1", ppm(0));
    let r = relay.relay_along_path(&[s("S"), s("H1"), s("L1"), s("D")], &mesh, ppm(300_000));
    assert_eq!(r.hops.len(), 3);
    for h in &r.hops {
        assert!(h.outgoing_error_rate <= h.incoming_error_rate);
    }
    assert_eq!(r.hops[1].correction_factor, 0);
    assert_eq!(r.hops[1].outgoing_error_rate, r.hops[1].incoming_error_rate);
}

#[test]
fn later_hub_override_wins() {
    let mesh = triangle();
    let relay = HubRelay::new(ppm(500_000))
        .with_hub_correction("A", ppm(100_000))
        .with_hub_correction("B", ppm(200_000))
        .with_hub_correction("A", ppm(900_000));
    let r = relay.relay_along_path(&[s("A")], &mesh, ppm(100_000));
    assert_eq!(r.hops.len(), 1);
    assert_eq!(r.hops[0].correction_factor, ppm(900_000));
    assert_eq!(r.final_error_rate, ppm(10_000));
}

#[test]
fn relay_without_hubs_keeps_the_compounded_error() {
    let mesh = Mesh::new()
        .with_nodes(vec![MeshNode::new("A", false, (0, 0)), MeshNode::new("B", false, (U, 0))])
        .with_links(vec![HyphaeLink::new("A", "B", 100, ppm(200_000))]);
    let relay = HubRelay::new(ppm(500_000));
    let r = relay.relay_along_path(&[s("A"), s("B")], &mesh, ppm(500_000));
    assert!(r.hops.is_empty());
    assert_eq!(r.final_error_rate, ppm(600_000));
    assert_eq!(r.reliability, ppm(400_000));
    assert!(!r.delivered);
    assert_eq!(r.total_latency, 1_000);
    let alone = relay.relay_along_path(&[s("A")], &mesh, ppm(400_000));
    assert_eq!(alone.final_error_rate, ppm(400_000));
    let empty = relay.relay_along_path(&[], &mesh, ppm(400_000));
    assert!(empty.hops.is_empty());
    assert_eq!(empty.total_latency, 0);
    assert_eq!(empty.final_error_rate, ppm(400_000));
}

#[test]
fn delivery_needs_more_than_half() {
    let half = RelayResult::new(vec![s("A")], vec![RelayHop::new("A", ppm(1_000_000), ppm(500_000))], 0);
    assert_eq!(half.final_error_rate, ppm(500_000));
    assert_eq!(half.reliability, ppm(500_000));
    assert!(!half.delivered);
    let better = RelayResult::new(vec![s("A")], vec![RelayHop::new("A", ppm(999_998), ppm(500_000))], 0);
    assert_eq!(better.reliability, ppm(500_001));
    assert!(better.delivered);
    let none = RelayResult::new(vec![], vec![], 7);
    assert_eq!(none.reliability, ppm(1_000_000));
    assert!(none.delivered);
    assert_eq!(none.total_latency, 7);
}

// === SPORE BROADCAST ===

#[test]
fn no_failures_all_paths_succeed() {
    let mesh = rich();
    let mut b = SporeBroadcast::new("S", vec![s("D")], 10);
    b.plan(&mesh);
    let r = b.simulate_delivery(&[]);
    assert_eq!(r.successful_paths, r.total_paths);
    assert_eq!(r.failed_paths, 0);
    assert_eq!(r.total_paths, b.paths.len());
    assert!(r.delivered);
}

#[test]
fn failure_direction_does_not_matter() {
    let mesh = three_paths();
    let mut b = SporeBroadcast::new("S", vec![s("D")], 10).with_delivery_threshold(3);
    b.plan(&mesh);
    assert_eq!(b.simulate_delivery(&[("S", "M2")]), b.simulate_delivery(&[("M2", "S")]));
    let r = b.simulate_delivery(&[("D", "M3")]);
    assert_eq!(r.successful_paths, 2);
    assert!(!r.delivered);
}

#[test]
fn more_failures_never_more_successes() {
    let mesh = rich();
    let mut b = SporeBroadcast::new("S", vec![s("D"), s("L1")], 10).with_delivery_threshold(2);
    b.plan(&mesh);
    let one = b.simulate_delivery(&[("S", "H1")]);
    let two = b.simulate_delivery(&[("S", "H1"), ("H2", "D")]);
    assert!(two.successful_paths <= one.successful_paths);
    assert_eq!(one.successful_paths + one.failed_paths, one.total_paths);
    assert_eq!(two.successful_paths + two.failed_paths, two.total_paths);
}

#[test]
fn plan_keeps_targets_in_order() {
    let mesh = three_paths();
    let mut b = SporeBroadcast::new("S", vec![s("M1"), s("D")], 2);
    b.plan(&mesh);
    assert_eq!(b.paths.len(), 4);
    assert_eq!(b.paths[0].path.last().unwrap(), "M1");
    assert_eq!(b.paths[1].path.last().unwrap(), "M1");
    assert_eq!(b.paths[2].path.last().unwrap(), "D");
    assert_eq!(b.paths[3].path.last().unwrap(), "D");
    assert_eq!(b.fanout, 2);
    assert_eq!(b.source, "S");
}

#[test]
fn per_target_counts() {
    let mesh = three_paths();
    let mut b = SporeBroadcast::new("S", vec![s("D"), s("Z")], 10).with_delivery_threshold(2);
    b.plan(&mesh);
    let res = b.per_target_delivery(&[("M1", "S")]);
    assert_eq!(res.len(), 2);
    assert_eq!(res[0].target, "D");
    assert_eq!(res[0].total_paths, 3);
    assert_eq!(res[0].successful_paths, 2);
    assert!(res[0].delivered);
    assert_eq!(res[1].target, "Z");
    assert_eq!(res[1].total_paths, 0);
    assert_eq!(res[1].successful_paths, 0);
    assert!(!res[1].delivered);
}

#[test]
fn zero_threshold_always_delivers() {
    let mesh = three_paths();
    let mut b = SporeBroadcast::new("S", vec![s("D")], 10).with_delivery_threshold(0);
    b.plan(&mesh);
    let r = b.simulate_delivery(&[("S", "M1"), ("S", "M2"), ("S", "M3")]);
    assert_eq!(r.successful_paths, 0);
    assert!(r.delivered);
}

#[test]
fn k_resilience_counts_the_smallest_cut() {
    // A shortest walk S-A-D-T would block both other routes if taken first;
    // the connectivity of S and T is still two, and no link is a bridge.
    let mesh = Mesh::new()
        .with_nodes(vec![
            MeshNode::new("S", true, (0, 0)),
            MeshNode::new("A", false, (0, 0)),
            MeshNode::new("B", false, (0, 0)),
            MeshNode::new("C", false, (0, 0)),
            MeshNode::new("D", false, (0, 0)),
            MeshNode::new("T", true, (0, 0)),
        ])
        .with_links(vec![
            HyphaeLink::new("S", "A", 1, ppm(0)),
            HyphaeLink::new("A", "D", 1, ppm(0)),
            HyphaeLink::new("D", "T", 1, ppm(0)),
            HyphaeLink::new("A", "B", 1, ppm(0)),
            HyphaeLink::new("B", "T", 1, ppm(0)),
            HyphaeLink::new("S", "C", 1, ppm(0)),
            HyphaeLink::new("C", "D", 1, ppm(0)),
        ]);
    let analyzer = ResilienceAnalyzer::new(&mesh);
    assert_eq!(analyzer.compute_k_resilience(), 1);
    assert!(analyzer.find_bridges().is_empty());
    for l in &mesh.links {
        assert!(analyzer.survives_failures(&[LinkFailure::new(&l.from, &l.to)]));
    }
    assert!(!analyzer.survives_failures(&[LinkFailure::new("S", "A"), LinkFailure::new("S", "C")]));
}

#[test]
fn dfs_order_follows_links() {
    let mesh = three_paths();
    let router = MeshRouter::new(&mesh);
    let paths = router.find_all_paths("S", "D", 2);
    let found: Vec<Vec<&str>> = paths.iter().map(|r| ids(&r.path)).collect();
    assert_eq!(found, vec![vec!["S", "M1", "D"], vec!["S", "M2", "D"]]);
}

#[test]
fn a_star_survives_no_failure() {
    let mesh = Mesh::new()
        .with_nodes(vec![
            MeshNode::new("H", true, (0, 0)),
            MeshNode::new("A", false, (U, 0)),
            MeshNode::new("B", false, (0, U)),
            MeshNode::new("C", false, (-U, 0)),
        ])
        .with_links(vec![
            HyphaeLink::new("H", "A", 5, ppm(0)),
            HyphaeLink::new("B", "H", 5, ppm(0)),
            HyphaeLink::new("H", "C", 5, ppm(0)),
        ]);
    let analyzer = ResilienceAnalyzer::new(&mesh);
    let report = analyzer.analyze();
    assert_eq!(report.k_resilience, 0);
    assert_eq!(report.critical_links, vec![s("A-H"), s("B-H"), s("C-H")]);
    assert_eq!(report.bottleneck_node, Some(s("H")));
    assert!(!analyzer.survives_failures(&[LinkFailure::new("A", "H")]));
}

#[test]
fn quick_start_walkthrough() {
    let mut mesh = Mesh::new();
    mesh.add_node(MeshNode::new("Oak", true, (0, 0)));
    mesh.add_node(MeshNode::new("Pine", true, (U, 0)));
    mesh.add_node(MeshNode::new("Birch", false, (U / 2, 870_000)));
    mesh.add_node(MeshNode::new("Maple", true, (3 * U / 2, 870_000)));
    mesh.add_link(HyphaeLink::new("Oak", "Pine", 100, ppm(10_000)));
    mesh.add_link(HyphaeLink::new("Oak", "Birch", 80, ppm(20_000)));
    mesh.add_link(HyphaeLink::new("Pine", "Birch", 60, ppm(10_000)));
    mesh.add_link(HyphaeLink::new("Pine", "Maple", 90, ppm(15_000)));
    mesh.add_link(HyphaeLink::new("Birch", "Maple", 70, ppm(20_000)));

    let report = ResilienceAnalyzer::new(&mesh).analyze();
    assert_eq!(report.k_resilience, 1);
    assert!(report.critical_links.is_empty());

    let route = MeshRouter::new(&mesh).route("Oak", "Maple", &RoutingAlgorithm::MostReliable);
    assert_eq!(ids(&route.path), vec!["Oak", "Pine", "Maple"]);
    assert_eq!(route.reliability, ppm(975_150));

    let relay = HubRelay::new(ppm(600_000));
    let result = relay.relay_along_path(&route.path, &mesh, ppm(50_000));
    assert_eq!(result.hops.len(), 3);
    assert_eq!(result.hops[0].incoming_error_rate, ppm(59_500));
    assert_eq!(result.hops[0].outgoing_error_rate, ppm(23_800));
    assert_eq!(result.hops[1].incoming_error_rate, ppm(38_443));
    assert_eq!(result.hops[1].outgoing_error_rate, 15_377_200_000_000_000);
    assert_eq!(result.final_error_rate, 6_150_880_000_000_000);
    assert!(result.delivered);

    let mut broadcast = SporeBroadcast::new("Oak", vec![s("Maple")], 5).with_delivery_threshold(2);
    broadcast.plan(&mesh);
    let found: Vec<Vec<&str>> = broadcast.paths.iter().map(|r| ids(&r.path)).collect();
    assert_eq!(
        found,
        vec![
            vec!["Oak", "Pine", "Birch", "Maple"],
            vec!["Oak", "Pine", "Maple"],
            vec!["Oak", "Birch", "Pine", "Maple"],
            vec!["Oak", "Birch", "Maple"],
        ]
    );
    let delivery = broadcast.simulate_delivery(&[("Oak", "Pine")]);
    assert!(delivery.delivered);
    assert_eq!(delivery.successful_paths, 2);
}

#[test]
fn route_reliability_is_the_exact_product() {
    let mesh = Mesh::new()
        .with_nodes(vec![
            MeshNode::new("A", false, (0, 0)),
            MeshNode::new("B", false, (U, 0)),
            MeshNode::new("C", false, (2 * U, 0)),
        ])
        .with_links(vec![HyphaeLink::new("A", "B", 5, ppm(499_999)), HyphaeLink::new("B", "C", 5, ppm(1))]);
    let router = MeshRouter::new(&mesh);
    for alg in [RoutingAlgorithm::ShortestPath, RoutingAlgorithm::MostReliable, RoutingAlgorithm::WidestPath] {
        let r = router.route("A", "C", &alg);
        assert_eq!(ids(&r.path), vec!["A", "B", "C"]);
        assert_eq!(r.reliability, 500_000_499_999_000_000);
    }
}

#[test]
fn failures_match_endpoint_pairs_not_text() {
    let mut b = SporeBroadcast::new("A-B", vec![s("C")], 1);
    b.paths = vec![Route::new(vec![s("A-B"), s("C")], 1_000, ppm(990_000))];
    let r = b.simulate_delivery(&[("A", "B-C")]);
    assert_eq!(r.successful_paths, 1);
    assert_eq!(r.failed_paths, 0);
    assert!(r.delivered);
    let hit = b.simulate_delivery(&[("C", "A-B")]);
    assert_eq!(hit.successful_paths, 0);
    let per = b.per_target_delivery(&[("A", "B-C")]);
    assert_eq!(per[0].successful_paths, 1);
}

#[test]
fn readme_shortest_route_takes_pine() {
    let mesh = Mesh::new()
        .with_nodes(vec![
            MeshNode::new("Oak", true, (0, 0)),
            MeshNode::new("Pine", true, (U, 0)),
            MeshNode::new("Birch", false, (U / 2, 870_000)),
            MeshNode::new("Maple", true, (3 * U / 2, 870_000)),
        ])
        .with_links(vec![
            HyphaeLink::new("Oak", "Pine", 100, ppm(10_000)),
            HyphaeLink::new("Oak", "Birch", 80, ppm(20_000)),
            HyphaeLink::new("Pine", "Birch", 60, ppm(10_000)),
            HyphaeLink::new("Pine", "Maple", 90, ppm(15_000)),
            HyphaeLink::new("Birch", "Maple", 70, ppm(20_000)),
        ]);
    let route = MeshRouter::new(&mesh).shortest_path("Oak", "Maple");
    assert_eq!(ids(&route.path), vec!["Oak", "Pine", "Maple"]);
    assert_eq!(route.total_latency, 2_000);
    assert_eq!(route.hops, 2);
    assert_eq!(route.reliability, ppm(975_150));
}

#[test]
fn relay_over_clean_hubs_matches_cumulative_correction() {
    let mesh = Mesh::new()
        .with_nodes(vec![
            MeshNode::new("A", true, (0, 0)),
            MeshNode::new("B", true, (U, 0)),
            MeshNode::new("C", true, (2 * U, 0)),
        ])
        .with_links(vec![HyphaeLink::new("A", "B", 100, 0), HyphaeLink::new("B", "C", 100, 0)]);
    let relay = HubRelay::new(ppm(500_000));
    let path = vec![s("A"), s("B"), s("C")];
    let relayed = relay.relay_along_path(&path, &mesh, ppm(100_000));
    let cumulative = relay.cumulative_error_correction(ppm(100_000), 3);
    assert_eq!(cumulative, ppm(12_500));
    assert_eq!(relayed.final_error_rate, cumulative);
}

#[test]
fn per_target_reports_add_up_to_the_broadcast() {
    let mesh = triangle();
    let mut b = SporeBroadcast::new("A", vec![s("B"), s("C")], 5);
    b.plan(&mesh);
    for failed in [vec![], vec![("A", "B")], vec![("A", "B"), ("C", "A")]] {
        let whole = b.simulate_delivery(&failed);
        let per = b.per_target_delivery(&failed);
        let ok: usize = per.iter().map(|d| d.successful_paths).sum();
        let all: usize = per.iter().map(|d| d.total_paths).sum();
        assert_eq!(ok, whole.successful_paths);
        assert_eq!(all, whole.total_paths);
    }
}

#[test]
fn report_agrees_with_separate_analyses() {
    for mesh in [triangle(), line(), rich()] {
        let analyzer = ResilienceAnalyzer::new(&mesh);
        let report = analyzer.analyze();
        assert_eq!(report.k_resilience, analyzer.compute_k_resilience());
        assert_eq!(report.k_resilience, analyzer.compare_with_tree().0);
        assert_eq!(report.bottleneck_node, analyzer.find_bottleneck_node());
        assert_eq!(report.critical_links, analyzer.find_bridges());
    }
}

#[test]
fn plan_is_one_search_per_target() {
    let mesh = rich();
    let targets = vec![s("D"), s("L1"), s("H2")];
    let mut b = SporeBroadcast::new("S", targets.clone(), 2);
    b.plan(&mesh);
    let router = MeshRouter::new(&mesh);
    let mut expected: Vec<Route> = Vec::new();
    for t in &targets {
        expected.extend(router.find_all_paths("S", t, 2));
    }
    assert_eq!(b.paths.len(), expected.len());
    for (got, want) in b.paths.iter().zip(expected.iter()) {
        assert_eq!(got.path, want.path);
        assert_eq!(got.total_latency, want.total_latency);
        assert_eq!(got.reliability, want.reliability);
        assert_eq!(got.hops, want.hops);
    }
}

#[test]
fn resilient_triangle_survives_any_single_failure() {
    let mesh = triangle();
    let analyzer = ResilienceAnalyzer::new(&mesh);
    assert_eq!(analyzer.compute_k_resilience(), 1);
    assert!(analyzer.find_bridges().is_empty());
    for (a, b) in [("A", "B"), ("B", "C"), ("C", "A")] {
        assert!(analyzer.survives_failures(&[LinkFailure::new(a, b)]));
    }
    assert!(!analyzer.survives_failures(&[LinkFailure::new("A", "B"), LinkFailure::new("B", "C")]));
}

#[test]
fn tiny_reliability_still_gives_a_route() {
    let nearly_dead = 1_000_000_000_000_000_000 - 100_000_000;
    let mesh = Mesh::new()
        .with_nodes(vec![
            MeshNode::new("A", false, (0, 0)),
            MeshNode::new("B", false, (U, 0)),
            MeshNode::new("C", false, (2 * U, 0)),
        ])
        .with_links(vec![HyphaeLink::new("A", "B", 10, nearly_dead), HyphaeLink::new("B", "C", 10, nearly_dead)]);
    let router = MeshRouter::new(&mesh);
    let r = router.most_reliable_path("A", "C");
    assert_eq!(ids(&r.path), vec!["A", "B", "C"]);
    assert_eq!(r.hops, 2);
    assert_eq!(r.reliability, 0);
    assert_eq!(router.most_reliable_path("A", "B").reliability, 100_000_000);
}

#[test]
fn dead_link_carries_no_most_reliable_route() {
    let mesh = Mesh::new()
        .with_nodes(vec![
            MeshNode::new("A", false, (0, 0)),
            MeshNode::new("B", false, (U, 0)),
            MeshNode::new("C", false, (2 * U, 0)),
        ])
        .with_links(vec![HyphaeLink::new("A", "B", 10, ppm(10_000)), HyphaeLink::new("B", "C", 10, ppm(1_000_000))]);
    let router = MeshRouter::new(&mesh);
    assert!(!router.most_reliable_path("A", "C").is_valid());
    assert!(router.most_reliable_path("A", "B").is_valid());
    assert_eq!(ids(&router.shortest_path("A", "C").path), vec!["A", "B", "C"]);
    assert_eq!(router.shortest_path("A", "C").reliability, 0);
}

#[test]
fn distance_across_the_whole_coordinate_range() {
    let a = MeshNode::new("A", false, (i64::MIN, 0));
    let b = MeshNode::new("B", false, (i64::MAX, 0));
    assert_eq!(a.distance_to(&b), u64::MAX);
    let c = MeshNode::new("C", false, (i64::MAX, i64::MAX));
    let d = MeshNode::new("D", false, (0, 0));
    assert_eq!(c.distance_to(&d), 13_043_817_825_332_782_210);
}

#[test]
fn found_paths_are_distinct_without_parallel_links() {
    let mesh = rich();
    let routes = MeshRouter::new(&mesh).find_all_paths("S", "D", 100);
    for i in 0..routes.len() {
        for j in 0..i {
            assert_ne!(routes[i].path, routes[j].path);
        }
    }
}

#[test]
fn parallel_links_give_a_path_twice() {
    let mesh = Mesh::new()
        .with_nodes(vec![MeshNode::new("A", false, (0, 0)), MeshNode::new("B", false, (U, 0))])
        .with_links(vec![HyphaeLink::new("A", "B", 10, 0), HyphaeLink::new("B", "A", 10, 0)]);
    let routes = MeshRouter::new(&mesh).find_all_paths("A", "B", 10);
    assert_eq!(routes.len(), 2);
    assert_eq!(routes[0].path, routes[1].path);
}

#[test]
fn report_hangs_together() {
    for mesh in [triangle(), line(), rich()] {
        let report = ResilienceAnalyzer::new(&mesh).analyze();
        if !report.is_connected || !report.critical_links.is_empty() {
            assert_eq!(report.k_resilience, 0);
        } else if report.total_nodes >= 2 {
            assert!(report.k_resilience >= 1);
        }
    }
    assert!(ResilienceAnalyzer::new(&line()).analyze().critical_links.len() == 3);
    assert_eq!(ResilienceAnalyzer::new(&triangle()).analyze().k_resilience, 1);
}
