//! Spore broadcast: multi-path message delivery inspired by fungal spore dispersal.
//!
//! In nature, fungi release spores in multiple directions. Some spores fail,
//! but the species survives because enough reach fertile ground. Similarly,
//! a spore broadcast sends messages along multiple paths, and delivery
//! succeeds if enough paths get through, providing burst-error tolerance.
use vstd::prelude::*;
use crate::ident::{id_views, same_id};
use crate::mesh::Mesh;
use crate::mesh_routing::{
    MeshRouter, Route, is_path_search, route_paths, first_at_most, simple_paths_in_order, route_view,
    searched_routes,
};
use crate::hyphae_link::HyphaeLink;

verus! {

broadcast use vstd::seq_lib::group_seq_properties;

/// A spore broadcast: message sent along multiple paths to multiple targets.
#[derive(Debug, Clone)]
pub struct SporeBroadcast {
    pub source: String,
    pub targets: Vec<String>,
    /// Maximum number of paths to explore per target.
    pub fanout: usize,
    /// Computed paths to all targets.
    pub paths: Vec<Route>,
    /// Minimum number of paths that must succeed for delivery.
    pub delivery_threshold: usize,
}

/// Result of a broadcast simulation.
#[derive(Debug, Clone, PartialEq, Eq, Structural)]
pub struct BroadcastResult {
    pub delivered: bool,
    pub successful_paths: usize,
    pub failed_paths: usize,
    pub total_paths: usize,
}

/// Per-target delivery result.
#[derive(Debug, Clone)]
pub struct TargetDelivery {
    pub target: String,
    pub total_paths: usize,
    pub successful_paths: usize,
    pub delivered: bool,
}

/// What the routes of a plan say: for each target in turn, those of a
/// search for at most `m` simple paths from `source` to it.
pub open spec fn planned_routes(links: Seq<HyphaeLink>, source: Seq<char>, targets: Seq<String>, m: nat) -> Seq<
    (Seq<Seq<char>>, u64, u64, usize),
>
    decreases targets.len(),
{
    if targets.len() == 0 {
        Seq::empty()
    } else {
        planned_routes(links, source, targets.drop_last(), m) + searched_routes(links, source, targets.last()@, m)
    }
}

/// The routes of the blocks, one block after the other.
pub open spec fn concat_routes(blocks: Seq<Seq<Route>>) -> Seq<Route>
    decreases blocks.len(),
{
    if blocks.len() == 0 {
        Seq::empty()
    } else {
        concat_routes(blocks.drop_last()) + blocks.last()
    }
}

/// The failed links, each as the pair of its endpoints.
pub open spec fn failed_pairs(failed: Seq<(&str, &str)>) -> Seq<(Seq<char>, Seq<char>)> {
    failed.map_values(|f: (&str, &str)| (f.0@, f.1@))
}

/// The link between `a` and `b` is among the failures, named in either
/// direction.
pub open spec fn step_fails(fails: Seq<(Seq<char>, Seq<char>)>, a: Seq<char>, b: Seq<char>) -> bool {
    fails.contains((a, b)) || fails.contains((b, a))
}

/// No step of the path crosses a failed link.
pub open spec fn path_survives(path: Seq<Seq<char>>, fails: Seq<(Seq<char>, Seq<char>)>) -> bool {
    forall|w: int| 0 <= w < path.len() - 1 ==> !step_fails(fails, #[trigger] path[w], path[w + 1])
}

/// The number of routes whose paths survive.
pub open spec fn surviving_count(routes: Seq<Route>, keys: Seq<(Seq<char>, Seq<char>)>) -> nat
    decreases routes.len(),
{
    if routes.len() == 0 {
        0
    } else {
        surviving_count(routes.drop_last(), keys) + if path_survives(id_views(routes.last().path@), keys) {
            1nat
        } else {
            0nat
        }
    }
}

/// The routes that end at `t`, in order.
pub open spec fn routes_to(routes: Seq<Route>, t: Seq<char>) -> Seq<Route>
    decreases routes.len(),
{
    if routes.len() == 0 {
        Seq::empty()
    } else {
        let rest = routes_to(routes.drop_last(), t);
        let p = routes.last().path@;
        if p.len() > 0 && p[p.len() - 1]@ == t {
            rest.push(routes.last())
        } else {
            rest
        }
    }
}

/// What the delivery check reports for target `t`.
pub open spec fn target_report(routes: Seq<Route>, keys: Seq<(Seq<char>, Seq<char>)>, threshold: nat, t: Seq<char>, d: TargetDelivery) -> bool {
    &&& d.target@ == t
    &&& d.total_paths == routes_to(routes, t).len()
    &&& d.successful_paths == surviving_count(routes_to(routes, t), keys)
    &&& d.delivered == (d.successful_paths >= threshold)
}

proof fn lemma_surviving_le(routes: Seq<Route>, keys: Seq<(Seq<char>, Seq<char>)>)
    ensures
        surviving_count(routes, keys) <= routes.len(),
    decreases routes.len(),
{
    if routes.len() > 0 {
        lemma_surviving_le(routes.drop_last(), keys);
    }
}

/// Whether the link between `a` and `b` is among the failures.
fn step_failed(failed_links: &[(&str, &str)], a: &str, b: &str) -> (r: bool)
    ensures
        r == step_fails(failed_pairs(failed_links@), a@, b@),
{
    let ghost fp = failed_pairs(failed_links@);
    let mut k: usize = 0;
    while k < failed_links.len()
        invariant
            k <= failed_links@.len(),
            fp == failed_pairs(failed_links@),
            forall|j: int| 0 <= j < k ==> fp[j] != (a@, b@) && fp[j] != (b@, a@),
        decreases failed_links@.len() - k,
    {
        let (x, y) = failed_links[k];
        assert(fp[k as int] == (x@, y@));
        if (same_id(x, a) && same_id(y, b)) || (same_id(x, b) && same_id(y, a)) {
            assert(fp.contains(fp[k as int]));
            return true;
        }
        k = k + 1;
    }
    proof {
        if fp.contains((a@, b@)) {
            let j = fp.index_of((a@, b@));
            assert(fp[j] == (a@, b@));
        }
        if fp.contains((b@, a@)) {
            let j = fp.index_of((b@, a@));
            assert(fp[j] == (b@, a@));
        }
    }
    false
}

/// Whether no step of the path crosses a failed link.
fn survives(path: &Vec<String>, failed_links: &[(&str, &str)]) -> (r: bool)
    ensures
        r == path_survives(id_views(path@), failed_pairs(failed_links@)),
{
    let ghost fp = failed_pairs(failed_links@);
    let mut w: usize = 0;
    while w < path.len() && w + 1 < path.len()
        invariant
            w <= path.len(),
            fp == failed_pairs(failed_links@),
            forall|v: int|
                0 <= v < w && v < path@.len() - 1 ==> !step_fails(fp, #[trigger] id_views(path@)[v], id_views(path@)[v + 1]),
        decreases path.len() - w,
    {
        if step_failed(failed_links, path[w].as_str(), path[w + 1].as_str()) {
            assert(id_views(path@)[w as int] == path@[w as int]@);
            return false;
        }
        w = w + 1;
    }
    true
}

impl SporeBroadcast {
    /// Create a new spore broadcast plan.
    pub fn new(source: &str, targets: Vec<String>, fanout: usize) -> (r: Self)
        ensures
            r.source@ == source@,
            r.targets@ == targets@,
            r.fanout == fanout,
            r.paths@.len() == 0,
            r.delivery_threshold == 1,
    {
        SporeBroadcast { source: source.to_owned(), targets, fanout, paths: Vec::new(), delivery_threshold: 1 }
    }

    /// Set the delivery threshold (minimum successful paths needed).
    pub fn with_delivery_threshold(self, threshold: usize) -> (r: Self)
        ensures
            r.source == self.source,
            r.targets@ == self.targets@,
            r.fanout == self.fanout,
            r.paths@ == self.paths@,
            r.delivery_threshold == threshold,
    {
        SporeBroadcast { delivery_threshold: threshold, ..self }
    }

    /// Plan the broadcast: find up to `fanout` simple paths to each target,
    /// the targets' paths one after the other.
    pub fn plan(&mut self, mesh: &Mesh)
        ensures
            final(self).source == old(self).source,
            final(self).targets@ == old(self).targets@,
            final(self).fanout == old(self).fanout,
            final(self).delivery_threshold == old(self).delivery_threshold,
            exists|blocks: Seq<Seq<Route>>|
                blocks.len() == old(self).targets@.len() && final(self).paths@ == concat_routes(blocks)
                    && forall|k: int|
                    0 <= k < blocks.len() ==> is_path_search(
                        mesh.links@,
                        old(self).source@,
                        old(self).targets@[k]@,
                        old(self).fanout as nat,
                        #[trigger] blocks[k],
                    ) && route_paths(blocks[k]) == first_at_most(
                        simple_paths_in_order(mesh.links@, old(self).source@, old(self).targets@[k]@),
                        old(self).fanout as nat,
                    ),
            final(self).paths@.map_values(|r: Route| route_view(r)) == planned_routes(
                mesh.links@,
                old(self).source@,
                old(self).targets@,
                old(self).fanout as nat,
            ),
    {
        let router = MeshRouter::new(mesh);
        let mut paths: Vec<Route> = Vec::new();
        let ghost mut blocks: Seq<Seq<Route>> = Seq::empty();
        let mut t: usize = 0;
        while t < self.targets.len()
            invariant
                router.spec_mesh() == *mesh,
                t <= self.targets@.len(),
                blocks.len() == t,
                paths@ == concat_routes(blocks),
                paths@.map_values(|r: Route| route_view(r)) == planned_routes(
                    mesh.links@,
                    self.source@,
                    self.targets@.take(t as int),
                    self.fanout as nat,
                ),
                forall|k: int|
                    0 <= k < blocks.len() ==> is_path_search(
                        mesh.links@,
                        self.source@,
                        self.targets@[k]@,
                        self.fanout as nat,
                        #[trigger] blocks[k],
                    ) && route_paths(blocks[k]) == first_at_most(
                        simple_paths_in_order(mesh.links@, self.source@, self.targets@[k]@),
                        self.fanout as nat,
                    ),
            decreases self.targets@.len() - t,
        {
            let mut found = router.find_all_paths(self.source.as_str(), self.targets[t].as_str(), self.fanout);
            let ghost block = found@;
            let ghost before = paths@;
            paths.append(&mut found);
            proof {
                let tk = self.targets@.take(t + 1);
                assert(tk.drop_last() =~= self.targets@.take(t as int));
                assert(tk.last() == self.targets@[t as int]);
                assert(paths@.map_values(|r: Route| route_view(r)) =~= before.map_values(|r: Route| route_view(r))
                    + block.map_values(|r: Route| route_view(r)));
                let nb = blocks.push(block);
                assert(nb.drop_last() =~= blocks);
                assert(paths@ =~= concat_routes(nb));
                assert forall|k: int|
                    0 <= k < nb.len() implies is_path_search(
                    mesh.links@,
                    self.source@,
                    self.targets@[k]@,
                    self.fanout as nat,
                    #[trigger] nb[k],
                ) && route_paths(nb[k]) == first_at_most(
                    simple_paths_in_order(mesh.links@, self.source@, self.targets@[k]@),
                    self.fanout as nat,
                ) by {
                    if k < blocks.len() {
                        assert(nb[k] == blocks[k]);
                    }
                }
                blocks = nb;
            }
            t = t + 1;
        }
        assert(self.targets@.take(t as int) =~= self.targets@);
        self.paths = paths;
    }

    /// Simulate broadcast delivery given which links fail: a path fails when
    /// one of its steps crosses a failed link, in either direction.
    pub fn simulate_delivery(&self, failed_links: &[(&str, &str)]) -> (r: BroadcastResult)
        ensures
            r.successful_paths == surviving_count(self.paths@, failed_pairs(failed_links@)),
            r.failed_paths == self.paths@.len() - r.successful_paths,
            r.total_paths == self.paths@.len(),
            r.delivered == (r.successful_paths >= self.delivery_threshold),
    {
        let mut successful: usize = 0;
        let mut failed: usize = 0;
        let mut i: usize = 0;
        while i < self.paths.len()
            invariant
                i <= self.paths@.len(),
                successful == surviving_count(self.paths@.take(i as int), failed_pairs(failed_links@)),
                successful + failed == i,
            decreases self.paths@.len() - i,
        {
            assert(self.paths@.take(i + 1).drop_last() =~= self.paths@.take(i as int));
            if survives(&self.paths[i].path, failed_links) {
                successful = successful + 1;
            } else {
                failed = failed + 1;
            }
            i = i + 1;
        }
        assert(self.paths@.take(i as int) =~= self.paths@);
        BroadcastResult {
            delivered: successful >= self.delivery_threshold,
            successful_paths: successful,
            failed_paths: failed,
            total_paths: self.paths.len(),
        }
    }

    /// Per-target delivery check: does each target have enough surviving paths?
    pub fn per_target_delivery(&self, failed_links: &[(&str, &str)]) -> (r: Vec<TargetDelivery>)
        ensures
            r.len() == self.targets.len(),
            forall|k: int|
                0 <= k < r.len() ==> target_report(
                    self.paths@,
                    failed_pairs(failed_links@),
                    self.delivery_threshold as nat,
                    self.targets@[k]@,
                    #[trigger] r@[k],
                ),
    {
        let mut out: Vec<TargetDelivery> = Vec::new();
        let mut t: usize = 0;
        while t < self.targets.len()
            invariant
                t <= self.targets@.len(),
                out.len() == t,
                forall|k: int|
                    0 <= k < t ==> target_report(
                        self.paths@,
                        failed_pairs(failed_links@),
                        self.delivery_threshold as nat,
                        self.targets@[k]@,
                        #[trigger] out@[k],
                    ),
            decreases self.targets@.len() - t,
        {
            let target = &self.targets[t];
            let mut total: usize = 0;
            let mut successful: usize = 0;
            let mut i: usize = 0;
            while i < self.paths.len()
                invariant
                    i <= self.paths@.len(),
                        total == routes_to(self.paths@.take(i as int), target@).len(),
                    successful == surviving_count(routes_to(self.paths@.take(i as int), target@), failed_pairs(failed_links@)),
                    total <= i,
                decreases self.paths@.len() - i,
            {
                let ghost pre = self.paths@.take(i as int);
                assert(self.paths@.take(i + 1).drop_last() =~= pre);
                let route = &self.paths[i];
                let n = route.path.len();
                if n > 0 && same_id(route.path[n - 1].as_str(), target.as_str()) {
                    proof {
                        let rt = routes_to(pre, target@);
                        assert(routes_to(self.paths@.take(i + 1), target@) == rt.push(self.paths@[i as int]));
                        assert(rt.push(self.paths@[i as int]).drop_last() =~= rt);
                        lemma_surviving_le(rt, failed_pairs(failed_links@));
                    }
                    total = total + 1;
                    if survives(&route.path, failed_links) {
                        successful = successful + 1;
                    }
                }
                i = i + 1;
            }
            assert(self.paths@.take(i as int) =~= self.paths@);
            let d = TargetDelivery {
                target: target.clone(),
                total_paths: total,
                successful_paths: successful,
                delivered: successful >= self.delivery_threshold,
            };
            out.push(d);
            proof {
                assert forall|k: int|
                    0 <= k < t + 1 implies target_report(
                    self.paths@,
                    failed_pairs(failed_links@),
                    self.delivery_threshold as nat,
                    self.targets@[k]@,
                    #[trigger] out@[k],
                ) by {
                    if k < t {
                        assert(out@[k] == out@.drop_last()[k]);
                    }
                }
            }
            t = t + 1;
        }
        out
    }
}

/// Failing more links never lets more paths through: when every step that
/// fails under `k1` also fails under `k2`, no more routes survive `k2` than
/// survive `k1`.  So a broadcast delivered despite the failures `k2` is
/// delivered despite the fewer failures `k1`.
pub proof fn lemma_more_failures_fewer_survivors(
    routes: Seq<Route>,
    k1: Seq<(Seq<char>, Seq<char>)>,
    k2: Seq<(Seq<char>, Seq<char>)>,
)
    requires
        forall|a: Seq<char>, b: Seq<char>| #[trigger] step_fails(k1, a, b) ==> step_fails(k2, a, b),
    ensures
        surviving_count(routes, k2) <= surviving_count(routes, k1),
    decreases routes.len(),
{
    if routes.len() > 0 {
        lemma_more_failures_fewer_survivors(routes.drop_last(), k1, k2);
        let p = id_views(routes.last().path@);
        if path_survives(p, k2) {
            assert forall|w: int| 0 <= w < p.len() - 1 implies !step_fails(k1, #[trigger] p[w], p[w + 1]) by {
                assert(!step_fails(k2, p[w], p[w + 1]));
            }
        }
    }
}

/// With no failed link, every planned path gets through.
pub proof fn lemma_no_failures_all_survive(routes: Seq<Route>)
    ensures
        surviving_count(routes, Seq::empty()) == routes.len(),
    decreases routes.len(),
{
    if routes.len() > 0 {
        lemma_no_failures_all_survive(routes.drop_last());
    }
}

/// A failed link may be named in either direction: swapping the endpoints of
/// one failure changes nothing that the delivery checks count.
pub proof fn lemma_failure_direction_irrelevant(routes: Seq<Route>, failed: Seq<(&str, &str)>, i: int)
    requires
        0 <= i < failed.len(),
    ensures
        surviving_count(routes, failed_pairs(failed.update(i, (failed[i].1, failed[i].0)))) == surviving_count(
            routes,
            failed_pairs(failed),
        ),
{
    let f1 = failed_pairs(failed);
    let f2 = failed_pairs(failed.update(i, (failed[i].1, failed[i].0)));
    assert(f2 =~= f1.update(i, (f1[i].1, f1[i].0)));
    assert forall|a: Seq<char>, b: Seq<char>| #[trigger] step_fails(f1, a, b) implies step_fails(f2, a, b) by {
        let p = if f1.contains((a, b)) { (a, b) } else { (b, a) };
        let j = f1.index_of(p);
        if j == i {
            assert(f2[i] == (p.1, p.0));
        } else {
            assert(f2[j] == p);
        }
    }
    assert forall|a: Seq<char>, b: Seq<char>| #[trigger] step_fails(f2, a, b) implies step_fails(f1, a, b) by {
        let p = if f2.contains((a, b)) { (a, b) } else { (b, a) };
        let j = f2.index_of(p);
        if j == i {
            assert(f1[i] == (p.1, p.0));
        } else {
            assert(f1[j] == p);
        }
    }
    lemma_more_failures_fewer_survivors(routes, f1, f2);
    lemma_more_failures_fewer_survivors(routes, f2, f1);
}

/// The route's path ends at one of the targets.
pub open spec fn ends_among(r: Route, targets: Seq<Seq<char>>) -> bool {
    r.path@.len() > 0 && targets.contains(r.path@[r.path@.len() - 1]@)
}

/// The surviving routes of each target, added up over the targets.
pub open spec fn per_target_surviving(
    routes: Seq<Route>,
    keys: Seq<(Seq<char>, Seq<char>)>,
    targets: Seq<Seq<char>>,
) -> nat
    decreases targets.len(),
{
    if targets.len() == 0 {
        0
    } else {
        per_target_surviving(routes, keys, targets.drop_last()) + surviving_count(
            routes_to(routes, targets.last()),
            keys,
        )
    }
}

/// The routes of each target, added up over the targets.
pub open spec fn per_target_paths(routes: Seq<Route>, targets: Seq<Seq<char>>) -> nat
    decreases targets.len(),
{
    if targets.len() == 0 {
        0
    } else {
        per_target_paths(routes, targets.drop_last()) + routes_to(routes, targets.last()).len()
    }
}

proof fn lemma_per_target_empty(keys: Seq<(Seq<char>, Seq<char>)>, targets: Seq<Seq<char>>)
    ensures
        per_target_surviving(Seq::empty(), keys, targets) == 0,
        per_target_paths(Seq::empty(), targets) == 0,
    decreases targets.len(),
{
    if targets.len() > 0 {
        lemma_per_target_empty(keys, targets.drop_last());
        assert(routes_to(Seq::<Route>::empty(), targets.last()).len() == 0);
    }
}

/// One more route adds itself to the sums of the target it ends at, if any.
proof fn lemma_per_target_push(
    routes: Seq<Route>,
    x: Route,
    keys: Seq<(Seq<char>, Seq<char>)>,
    targets: Seq<Seq<char>>,
)
    requires
        targets.no_duplicates(),
    ensures
        per_target_surviving(routes.push(x), keys, targets) == per_target_surviving(routes, keys, targets) + if ends_among(x, targets)
            && path_survives(id_views(x.path@), keys) {
            1nat
        } else {
            0nat
        },
        per_target_paths(routes.push(x), targets) == per_target_paths(routes, targets) + if ends_among(x, targets) {
            1nat
        } else {
            0nat
        },
    decreases targets.len(),
{
    if targets.len() > 0 {
        let rest = targets.drop_last();
        let t = targets.last();
        assert(rest.no_duplicates());
        lemma_per_target_push(routes, x, keys, rest);
        let rs = routes.push(x);
        assert(rs.drop_last() =~= routes);
        let r0 = routes_to(routes, t);
        let p = x.path@;
        if p.len() > 0 && p[p.len() - 1]@ == t {
            assert(routes_to(rs, t) == r0.push(x));
            assert(r0.push(x).drop_last() =~= r0);
            assert(!rest.contains(t)) by {
                if rest.contains(t) {
                    let j = rest.index_of(t);
                    assert(targets[j] == targets[targets.len() - 1]);
                }
            }
            assert(targets.contains(t)) by {
                assert(targets[targets.len() - 1] == t);
            }
        } else {
            assert(routes_to(rs, t) == r0);
            if ends_among(x, targets) {
                let j = targets.index_of(p[p.len() - 1]@);
                assert(j != targets.len() - 1);
                assert(rest[j] == targets[j]);
            }
            if ends_among(x, rest) {
                let j = rest.index_of(p[p.len() - 1]@);
                assert(targets[j] == rest[j]);
            }
        }
    }
}

/// When the targets are distinct and every route ends at one of them, the
/// per-target reports add up to the whole broadcast: their surviving paths
/// to the surviving paths of the broadcast, and their paths to all its
/// paths.
pub proof fn lemma_per_target_sums(
    routes: Seq<Route>,
    keys: Seq<(Seq<char>, Seq<char>)>,
    targets: Seq<Seq<char>>,
)
    requires
        targets.no_duplicates(),
        forall|k: int| 0 <= k < routes.len() ==> ends_among(#[trigger] routes[k], targets),
    ensures
        per_target_surviving(routes, keys, targets) == surviving_count(routes, keys),
        per_target_paths(routes, targets) == routes.len(),
    decreases routes.len(),
{
    if routes.len() == 0 {
        lemma_per_target_empty(keys, targets);
    } else {
        let rest = routes.drop_last();
        let x = routes.last();
        assert forall|k: int| 0 <= k < rest.len() implies ends_among(#[trigger] rest[k], targets) by {
            assert(rest[k] == routes[k]);
        }
        lemma_per_target_sums(rest, keys, targets);
        assert(rest.push(x) =~= routes);
        assert(ends_among(routes[routes.len() - 1], targets));
        lemma_per_target_push(rest, x, keys, targets);
    }
}

/// The routes checked for target `t` are exactly the routes whose path
/// ends at `t`, in their order.
pub proof fn lemma_routes_to_ends_at(routes: Seq<Route>, t: Seq<char>)
    ensures
        routes_to(routes, t) == routes.filter(|r: Route| r.path@.len() > 0 && r.path@[r.path@.len() - 1]@ == t),
    decreases routes.len(),
{
    reveal(Seq::filter);
    if routes.len() > 0 {
        lemma_routes_to_ends_at(routes.drop_last(), t);
    }
}

/// The surviving paths are counted one by one: the count over routes is
/// the number of routes whose paths survive.
pub proof fn lemma_surviving_count_counts(routes: Seq<Route>, keys: Seq<(Seq<char>, Seq<char>)>)
    ensures
        surviving_count(routes, keys) == routes.filter(|r: Route| path_survives(id_views(r.path@), keys)).len(),
    decreases routes.len(),
{
    reveal(Seq::filter);
    if routes.len() > 0 {
        lemma_surviving_count_counts(routes.drop_last(), keys);
    }
}

/// A path survives exactly when none of its steps joins the two ends of a
/// failed link, named in either direction.
pub proof fn lemma_path_survives_iff(p: Seq<Seq<char>>, failed: Seq<(&str, &str)>)
    ensures
        path_survives(p, failed_pairs(failed)) <==> forall|w: int, j: int|
            0 <= w < p.len() - 1 && 0 <= j < failed.len() ==> !((#[trigger] failed[j]).0@ == #[trigger] p[w]
                && failed[j].1@ == p[w + 1] || failed[j].0@ == p[w + 1] && failed[j].1@ == p[w]),
{
    let fp = failed_pairs(failed);
    if path_survives(p, fp) {
        assert forall|w: int, j: int| 0 <= w < p.len() - 1 && 0 <= j < failed.len() implies !((#[trigger] failed[j]).0@
            == #[trigger] p[w] && failed[j].1@ == p[w + 1] || failed[j].0@ == p[w + 1] && failed[j].1@ == p[w]) by {
            assert(!step_fails(fp, p[w], p[w + 1]));
            assert(fp[j] == (failed[j].0@, failed[j].1@));
        }
    }
    if !path_survives(p, fp) {
        let w = choose|w: int| 0 <= w < p.len() - 1 && step_fails(fp, #[trigger] p[w], p[w + 1]);
        let j = if fp.contains((p[w], p[w + 1])) {
            fp.index_of((p[w], p[w + 1]))
        } else {
            fp.index_of((p[w + 1], p[w]))
        };
        assert(fp[j] == (failed[j].0@, failed[j].1@));
        assert(failed[j].0@ == p[w] && failed[j].1@ == p[w + 1] || failed[j].0@ == p[w + 1] && failed[j].1@ == p[w]);
    }
}

} // verus!
