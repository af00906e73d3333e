//! Unit flows over the links and the cuts that bound them: the edge
//! connectivity of two nodes, as many links as must fail to cut one off
//! from the other, is the value of a largest flow between them.
use vstd::prelude::*;
use crate::hyphae_link::HyphaeLink;
use crate::ident::{id_views, find_id};
use crate::walk::{
    joins, connected_in, is_walk_between, lemma_closed_set_holds_walk, universe, lemma_universe,
    lemma_distinct_within, as_ints, lemma_walk_here, lemma_walk_push,
};

verus! {

broadcast use vstd::seq_lib::group_seq_properties;

/// Every link is enabled except those listed in `removed`.
pub open spec fn mask_without(n: nat, removed: Seq<int>) -> Seq<bool> {
    Seq::new(n, |i: int| !removed.contains(i))
}

/// What a flow of `f` along link `l` (positive from `from` to `to`) takes
/// out of node `x`.
pub open spec fn out_along(l: HyphaeLink, f: int, x: Seq<char>) -> int {
    (if l.from@ == x {
        f
    } else {
        0
    }) - (if l.to@ == x {
        f
    } else {
        0
    })
}

/// The net flow out of `x` along the first `n` links.
pub open spec fn net_out(links: Seq<HyphaeLink>, flow: Seq<int>, x: Seq<char>, n: int) -> int
    decreases n,
{
    if n <= 0 {
        0
    } else {
        net_out(links, flow, x, n - 1) + out_along(links[n - 1], flow[n - 1], x)
    }
}

/// The net flow out of the set `s` along the first `n` links.
pub open spec fn set_out(links: Seq<HyphaeLink>, flow: Seq<int>, s: Set<Seq<char>>, n: int) -> int
    decreases n,
{
    if n <= 0 {
        0
    } else {
        set_out(links, flow, s, n - 1) + (if s.contains(links[n - 1].from@) {
            flow[n - 1]
        } else {
            0
        }) - (if s.contains(links[n - 1].to@) {
            flow[n - 1]
        } else {
            0
        })
    }
}

/// A unit flow from `a` to `b`: each link carries -1, 0 or 1, a loop
/// carries nothing, and what enters any other node leaves it.
pub open spec fn is_flow(links: Seq<HyphaeLink>, flow: Seq<int>, a: Seq<char>, b: Seq<char>) -> bool {
    &&& flow.len() == links.len()
    &&& forall|i: int|
        0 <= i < links.len() ==> -1 <= #[trigger] flow[i] <= 1 && (links[i].from@ == links[i].to@
            ==> flow[i] == 0)
    &&& forall|x: Seq<char>| x != a && x != b ==> #[trigger] net_out(links, flow, x, links.len() as int) == 0
}

/// The number of indices below `n` listed in `r`.
pub open spec fn listed_below(n: int, r: Seq<int>) -> nat
    decreases n,
{
    if n <= 0 {
        0
    } else {
        listed_below(n - 1, r) + if r.contains(n - 1) {
            1nat
        } else {
            0nat
        }
    }
}

/// `c` is the edge connectivity of `a` and `b`: any fewer than `c` failed
/// links leave `b` reachable from `a`, and some `c` failed links cut it off.
/// A node has connectivity zero with itself.
pub open spec fn is_edge_connectivity(links: Seq<HyphaeLink>, a: Seq<char>, b: Seq<char>, c: nat) -> bool {
    if a == b {
        c == 0
    } else {
        &&& forall|removed: Seq<int>|
            removed.len() < c ==> #[trigger] connected_in(links, mask_without(links.len(), removed), a, b)
        &&& exists|removed: Seq<int>|
            removed.len() == c && !#[trigger] connected_in(links, mask_without(links.len(), removed), a, b)
    }
}

/// Taking one node out of a set takes its own net flow out of the set's.
proof fn lemma_set_out_remove(links: Seq<HyphaeLink>, flow: Seq<int>, s: Set<Seq<char>>, v: Seq<char>, n: int)
    requires
        s.contains(v),
        n <= links.len(),
    ensures
        set_out(links, flow, s, n) == set_out(links, flow, s.remove(v), n) + net_out(links, flow, v, n),
    decreases n,
{
    if n > 0 {
        lemma_set_out_remove(links, flow, s, v, n - 1);
    }
}

/// The net flow out of any finite set holding `a` but not `b` is the net
/// flow out of `a`.
pub proof fn lemma_cut_carries_flow(links: Seq<HyphaeLink>, flow: Seq<int>, a: Seq<char>, b: Seq<char>, s: Set<Seq<char>>)
    requires
        is_flow(links, flow, a, b),
        s.finite(),
        s.contains(a),
        !s.contains(b),
    ensures
        set_out(links, flow, s, links.len() as int) == net_out(links, flow, a, links.len() as int),
    decreases s.len(),
{
    let n = links.len() as int;
    let rest = s.remove(a);
    if rest.len() == 0 {
        lemma_set_out_remove(links, flow, s, a, n);
        assert(rest =~= Set::<Seq<char>>::empty());
        lemma_set_out_empty(links, flow, rest, n);
    } else {
        let v = rest.choose();
        assert(rest.contains(v));
        lemma_set_out_remove(links, flow, s, v, n);
        assert(net_out(links, flow, v, n) == 0);
        lemma_cut_carries_flow(links, flow, a, b, s.remove(v));
    }
}

proof fn lemma_set_out_empty(links: Seq<HyphaeLink>, flow: Seq<int>, s: Set<Seq<char>>, n: int)
    requires
        s == Set::<Seq<char>>::empty(),
    ensures
        set_out(links, flow, s, n) == 0,
    decreases n,
{
    if n > 0 {
        lemma_set_out_empty(links, flow, s, n - 1);
    }
}

/// Changing the flow on link `e` by `d` changes each node's net flow by
/// what `d` along that link takes out of it.
pub proof fn lemma_net_out_update(links: Seq<HyphaeLink>, flow: Seq<int>, e: int, d: int, x: Seq<char>, n: int)
    requires
        0 <= e < flow.len(),
        n <= flow.len(),
    ensures
        net_out(links, flow.update(e, flow[e] + d), x, n) == net_out(links, flow, x, n) + if e < n {
            out_along(links[e], d, x)
        } else {
            0
        },
    decreases n,
{
    if n > 0 {
        lemma_net_out_update(links, flow, e, d, x, n - 1);
    }
}

/// A flow takes at most one unit out of a node per link.
pub proof fn lemma_net_out_bound(links: Seq<HyphaeLink>, flow: Seq<int>, x: Seq<char>, n: int)
    requires
        0 <= n <= links.len(),
        flow.len() == links.len(),
        forall|i: int|
            0 <= i < links.len() ==> -1 <= #[trigger] flow[i] <= 1 && (links[i].from@ == links[i].to@
                ==> flow[i] == 0),
    ensures
        net_out(links, flow, x, n) <= n,
    decreases n,
{
    if n > 0 {
        lemma_net_out_bound(links, flow, x, n - 1);
        assert(-1 <= flow[n - 1] <= 1);
    }
}

/// The number of listed indices is at most the length of the list.
pub proof fn lemma_listed_below_bound(n: int, r: Seq<int>)
    ensures
        listed_below(n, r) <= r.len(),
    decreases r.len(),
{
    if r.len() == 0 {
        lemma_listed_none(n, r);
    } else {
        let q = r.drop_last();
        lemma_listed_below_bound(n, q);
        lemma_listed_drop_last(n, r);
    }
}

proof fn lemma_listed_none(n: int, r: Seq<int>)
    requires
        r.len() == 0,
    ensures
        listed_below(n, r) == 0,
    decreases n,
{
    if n > 0 {
        lemma_listed_none(n - 1, r);
    }
}

proof fn lemma_listed_drop_last(n: int, r: Seq<int>)
    requires
        r.len() > 0,
    ensures
        listed_below(n, r) <= listed_below(n, r.drop_last()) + if 0 <= r.last() < n {
            1nat
        } else {
            0nat
        },
    decreases n,
{
    if n > 0 {
        lemma_listed_drop_last(n - 1, r);
        let q = r.drop_last();
        if r.contains(n - 1) && !q.contains(n - 1) {
            let k = r.index_of(n - 1);
            if k < r.len() - 1 {
                assert(q[k] == n - 1);
            }
            assert(r.last() == n - 1);
        }
    }
}

/// Weak duality: a set holding `a` but not `b` whose crossing links are all
/// listed in `r` bounds the flow's value by the length of `r`.
pub proof fn lemma_cut_bounds_flow(
    links: Seq<HyphaeLink>,
    flow: Seq<int>,
    a: Seq<char>,
    b: Seq<char>,
    s: Set<Seq<char>>,
    r: Seq<int>,
)
    requires
        is_flow(links, flow, a, b),
        s.finite(),
        s.contains(a),
        !s.contains(b),
        forall|i: int|
            0 <= i < links.len() && s.contains(#[trigger] links[i].from@) != s.contains(links[i].to@) ==> r.contains(i),
    ensures
        net_out(links, flow, a, links.len() as int) <= r.len(),
{
    lemma_cut_carries_flow(links, flow, a, b, s);
    lemma_set_out_le_listed(links, flow, s, r, links.len() as int);
    lemma_listed_below_bound(links.len() as int, r);
}

proof fn lemma_set_out_le_listed(links: Seq<HyphaeLink>, flow: Seq<int>, s: Set<Seq<char>>, r: Seq<int>, n: int)
    requires
        0 <= n <= links.len(),
        flow.len() == links.len(),
        forall|i: int| 0 <= i < links.len() ==> -1 <= #[trigger] flow[i] <= 1,
        forall|i: int|
            0 <= i < links.len() && s.contains(#[trigger] links[i].from@) != s.contains(links[i].to@) ==> r.contains(i),
    ensures
        set_out(links, flow, s, n) <= listed_below(n, r),
    decreases n,
{
    if n > 0 {
        lemma_set_out_le_listed(links, flow, s, r, n - 1);
        assert(-1 <= flow[n - 1] <= 1);
        assert(s.contains(links[n - 1].from@) != s.contains(links[n - 1].to@) ==> r.contains(n - 1));
    }
}

/// The indices below `n` of the links crossing out of the set `s`.
pub open spec fn crossing_links(links: Seq<HyphaeLink>, s: Set<Seq<char>>, n: int) -> Seq<int>
    decreases n,
{
    if n <= 0 {
        Seq::empty()
    } else {
        let rest = crossing_links(links, s, n - 1);
        if s.contains(links[n - 1].from@) != s.contains(links[n - 1].to@) {
            rest.push(n - 1)
        } else {
            rest
        }
    }
}

/// When every link crossing out of `s` carries a full unit out of it, the
/// set's net flow counts the crossing links.
proof fn lemma_saturated_cut(links: Seq<HyphaeLink>, flow: Seq<int>, s: Set<Seq<char>>, n: int)
    requires
        0 <= n <= links.len(),
        flow.len() == links.len(),
        forall|i: int|
            0 <= i < links.len() && #[trigger] s.contains(links[i].from@) && !s.contains(links[i].to@)
                ==> flow[i] == 1,
        forall|i: int|
            0 <= i < links.len() && !s.contains(#[trigger] links[i].from@) && s.contains(links[i].to@)
                ==> flow[i] == -1,
    ensures
        set_out(links, flow, s, n) == crossing_links(links, s, n).len(),
        forall|k: int| 0 <= k < crossing_links(links, s, n).len() ==> 0 <= #[trigger] crossing_links(links, s, n)[k] < n,
        forall|i: int|
            0 <= i < n && s.contains(#[trigger] links[i].from@) != s.contains(links[i].to@) ==> crossing_links(
                links,
                s,
                n,
            ).contains(i),
    decreases n,
{
    if n > 0 {
        lemma_saturated_cut(links, flow, s, n - 1);
        let rest = crossing_links(links, s, n - 1);
        let l = links[n - 1];
        if s.contains(l.from@) != s.contains(l.to@) {
            let c = rest.push(n - 1);
            assert(c[rest.len() as int] == n - 1);
            assert forall|i: int|
                0 <= i < n && s.contains(#[trigger] links[i].from@) != s.contains(links[i].to@) implies c.contains(i) by {
                if i < n - 1 {
                    let k = rest.index_of(i);
                    assert(c[k] == i);
                }
            }
            assert forall|k: int| 0 <= k < c.len() implies 0 <= #[trigger] c[k] < n by {
                if k < rest.len() {
                    assert(c[k] == rest[k]);
                }
            }
        }
    }
}

/// Strong duality: a set holding `a` but not `b`, with every link crossing
/// out of it carrying a full unit out, is cut off by the failure of its
/// crossing links, whose number is the flow's value.
pub proof fn lemma_saturated_cut_separates(
    links: Seq<HyphaeLink>,
    flow: Seq<int>,
    a: Seq<char>,
    b: Seq<char>,
    s: Set<Seq<char>>,
)
    requires
        is_flow(links, flow, a, b),
        s.finite(),
        s.contains(a),
        !s.contains(b),
        forall|i: int|
            0 <= i < links.len() && #[trigger] s.contains(links[i].from@) && !s.contains(links[i].to@)
                ==> flow[i] == 1,
        forall|i: int|
            0 <= i < links.len() && !s.contains(#[trigger] links[i].from@) && s.contains(links[i].to@)
                ==> flow[i] == -1,
    ensures
        crossing_links(links, s, links.len() as int).len() == net_out(links, flow, a, links.len() as int),
        !connected_in(links, mask_without(links.len(), crossing_links(links, s, links.len() as int)), a, b),
{
    let n = links.len() as int;
    lemma_cut_carries_flow(links, flow, a, b, s);
    lemma_saturated_cut(links, flow, s, n);
    let c = crossing_links(links, s, n);
    let mask = mask_without(links.len(), c);
    if connected_in(links, mask, a, b) {
        let (ns, es) = choose|ns: Seq<Seq<char>>, es: Seq<int>| #[trigger] is_walk_between(links, mask, ns, es, a, b);
        assert forall|i: int, x: Seq<char>, y: Seq<char>|
            0 <= i < links.len() && i < mask.len() && mask[i] && #[trigger] joins(links[i], x, y) && s.contains(x)
            implies s.contains(y) by {
            assert(!c.contains(i));
        }
        lemma_closed_set_holds_walk(links, mask, s, ns, es, a, b);
    }
}

/// The residual graph of a flow has an arc from `x` to `y` along link `l`
/// carrying `f` when more can be sent from `x` to `y` that way.
pub open spec fn residual_arc(l: HyphaeLink, f: int, x: Seq<char>, y: Seq<char>) -> bool {
    ||| (l.from@ == x && l.to@ == y && f < 1)
    ||| (l.to@ == x && l.from@ == y && f > -1)
}

/// `nodes` is a walk in the residual graph whose `k`-th step crosses link
/// `edges[k]`.
pub open spec fn is_residual_walk(links: Seq<HyphaeLink>, flow: Seq<int>, nodes: Seq<Seq<char>>, edges: Seq<int>) -> bool {
    &&& nodes.len() == edges.len() + 1
    &&& forall|k: int|
        0 <= k < edges.len() ==> 0 <= #[trigger] edges[k] < links.len() && residual_arc(
            links[edges[k]],
            flow[edges[k]],
            nodes[k],
            nodes[k + 1],
        )
}

/// Every residual arc out of `x` along the first `n` links leads into `seen`.
pub open spec fn residual_explored(links: Seq<HyphaeLink>, flow: Seq<int>, seen: Seq<Seq<char>>, x: Seq<char>, n: int) -> bool {
    forall|j: int|
        0 <= j < n ==> (#[trigger] links[j].from@ == x && flow[j] < 1 ==> seen.contains(links[j].to@)) && (
        links[j].to@ == x && flow[j] > -1 ==> seen.contains(links[j].from@))
}

/// `s` is closed under the residual arcs.
pub open spec fn residual_closed(links: Seq<HyphaeLink>, flow: Seq<int>, s: Set<Seq<char>>) -> bool {
    forall|i: int|
        0 <= i < links.len() ==> (s.contains(#[trigger] links[i].from@) && flow[i] < 1 ==> s.contains(links[i].to@))
            && (s.contains(links[i].to@) && flow[i] > -1 ==> s.contains(links[i].from@))
}

/// The flow on each link, as integers.
pub open spec fn flow_view(f: Seq<i64>) -> Seq<int> {
    f.map_values(|v: i64| v as int)
}

/// Searches the residual graph breadth first from `a`.  Returns a walk to
/// `b` without repeated nodes, or else the set of nodes found, which holds
/// `a`, not `b`, and is closed under the residual arcs.
pub(crate) fn residual_search(links: &Vec<HyphaeLink>, flow: &Vec<i64>, a: &str, b: &str) -> (r: (
    Option<Vec<usize>>,
    Ghost<Seq<Seq<char>>>,
    Ghost<Set<Seq<char>>>,
))
    requires
        flow.len() == links.len(),
        a@ != b@,
    ensures
        match r.0 {
            Some(p) => {
                &&& is_residual_walk(links@, flow_view(flow@), r.1@, as_ints(p@))
                &&& r.1@[0] == a@
                &&& r.1@[r.1@.len() - 1] == b@
                &&& r.1@.no_duplicates()
            },
            None => {
                &&& r.2@.finite()
                &&& r.2@.contains(a@)
                &&& !r.2@.contains(b@)
                &&& residual_closed(links@, flow_view(flow@), r.2@)
            },
        },
{
    let ghost fv = flow_view(flow@);
    let ghost u = universe(links@, a@);
    proof {
        lemma_universe(links@, a@);
    }
    let mut visited: Vec<String> = Vec::new();
    let mut paths: Vec<Vec<usize>> = Vec::new();
    visited.push(a.to_owned());
    paths.push(Vec::new());
    let ghost mut walks: Seq<Seq<Seq<char>>> = seq![seq![a@]];
    proof {
        assert(as_ints(paths@[0]@) =~= Seq::<int>::empty());
        assert(id_views(visited@) =~= seq![a@]);
        assert(is_residual_walk(links@, fv, walks[0], as_ints(paths@[0]@)));
    }
    let mut head: usize = 0;
    while head < visited.len()
        invariant
            flow.len() == links.len(),
            fv == flow_view(flow@),
            u == universe(links@, a@),
            u.finite(),
            u.contains(a@),
            visited.len() == paths.len(),
            visited.len() == walks.len(),
            1 <= visited.len(),
            head <= visited.len(),
            visited@[0]@ == a@,
            id_views(visited@).no_duplicates(),
            visited.len() <= u.len(),
            forall|k: int| 0 <= k < visited.len() ==> u.contains(#[trigger] visited@[k]@),
            forall|k: int|
                0 <= k < visited.len() ==> {
                    &&& is_residual_walk(links@, fv, #[trigger] walks[k], as_ints(paths@[k]@))
                    &&& walks[k][0] == a@
                    &&& walks[k][walks[k].len() - 1] == visited@[k]@
                    &&& walks[k].no_duplicates()
                    &&& forall|t: int| 0 <= t < walks[k].len() ==> id_views(visited@).contains(#[trigger] walks[k][t])
                },
            forall|k: int|
                0 <= k < head ==> residual_explored(links@, fv, id_views(visited@), #[trigger] visited@[k]@, links.len() as int),
        decreases u.len() - head,
    {
        let mut i: usize = 0;
        while i < links.len()
            invariant
                flow.len() == links.len(),
                fv == flow_view(flow@),
                u == universe(links@, a@),
                u.finite(),
                visited.len() == paths.len(),
                visited.len() == walks.len(),
                1 <= visited.len(),
                head < visited.len(),
                i <= links.len(),
                visited@[0]@ == a@,
                id_views(visited@).no_duplicates(),
                forall|k: int| 0 <= k < visited.len() ==> u.contains(#[trigger] visited@[k]@),
                forall|k: int|
                    0 <= k < visited.len() ==> {
                        &&& is_residual_walk(links@, fv, #[trigger] walks[k], as_ints(paths@[k]@))
                        &&& walks[k][0] == a@
                        &&& walks[k][walks[k].len() - 1] == visited@[k]@
                        &&& walks[k].no_duplicates()
                        &&& forall|t: int| 0 <= t < walks[k].len() ==> id_views(visited@).contains(#[trigger] walks[k][t])
                    },
                forall|k: int|
                    0 <= k < head ==> residual_explored(links@, fv, id_views(visited@), #[trigger] visited@[k]@, links.len() as int),
                residual_explored(links@, fv, id_views(visited@), visited@[head as int]@, i as int),
            decreases links.len() - i,
        {
            let link = &links[i];
            let from_here = link.from == visited[head];
            let to_here = link.to == visited[head];
            let open = if from_here {
                flow[i] < 1
            } else {
                to_here && flow[i] > -1
            };
            if open {
                let next: &String = if from_here {
                    &link.to
                } else {
                    &link.from
                };
                proof {
                    assert(fv[i as int] == flow@[i as int] as int);
                    assert(residual_arc(links@[i as int], fv[i as int], visited@[head as int]@, next@));
                }
                match find_id(&visited, next.as_str()) {
                    Some(found) => {
                        assert(id_views(visited@)[found as int] == next@);
                    },
                    None => {
                        let ghost old_visited = visited@;
                        let ghost prev = walks[head as int];
                        let mut p = paths[head].clone();
                        let ghost pe = as_ints(paths@[head as int]@);
                        p.push(i);
                        proof {
                            assert(p@ =~= paths@[head as int]@.push(i));
                            assert(as_ints(p@) =~= pe.push(i as int));
                            let nw = prev.push(next@);
                            assert(is_residual_walk(links@, fv, nw, pe.push(i as int))) by {
                                assert forall|k: int| 0 <= k < pe.len() + 1 implies 0 <= #[trigger] pe.push(i as int)[k] < links.len()
                                    && residual_arc(links@[pe.push(i as int)[k]], fv[pe.push(i as int)[k]], nw[k], nw[k + 1]) by {
                                    if k < pe.len() {
                                        assert(pe.push(i as int)[k] == pe[k]);
                                        assert(nw[k] == prev[k] && nw[k + 1] == prev[k + 1]);
                                    }
                                }
                            }
                            assert(!prev.contains(next@)) by {
                                if prev.contains(next@) {
                                    let t = prev.index_of(next@);
                                    assert(id_views(visited@).contains(prev[t]));
                                    let j = id_views(visited@).index_of(next@);
                                    assert(visited@[j]@ == next@);
                                }
                            }
                            assert(u.contains(next@)) by {
                                lemma_universe(links@, a@);
                                assert(u.contains(links@[i as int].from@) && u.contains(links@[i as int].to@));
                            }
                            walks = walks.push(nw);
                        }
                        visited.push(next.clone());
                        paths.push(p);
                        proof {
                            assert(id_views(visited@) =~= id_views(old_visited).push(next@));
                            assert(id_views(visited@)[visited.len() - 1] == next@);
                            assert forall|k: int| 0 <= k < visited.len() implies {
                                &&& is_residual_walk(links@, fv, #[trigger] walks[k], as_ints(paths@[k]@))
                                &&& walks[k][0] == a@
                                &&& walks[k][walks[k].len() - 1] == visited@[k]@
                                &&& walks[k].no_duplicates()
                                &&& forall|t: int| 0 <= t < walks[k].len() ==> id_views(visited@).contains(#[trigger] walks[k][t])
                            } by {
                                if k < visited.len() - 1 {
                                    assert(visited@[k] == old_visited[k]);
                                    assert forall|t: int| 0 <= t < walks[k].len() implies id_views(visited@).contains(#[trigger] walks[k][t]) by {
                                        assert(id_views(old_visited).contains(walks[k][t]));
                                        let j = id_views(old_visited).index_of(walks[k][t]);
                                        assert(id_views(visited@)[j] == walks[k][t]);
                                    }
                                } else {
                                    assert(walks[k] == prev.push(next@));
                                    assert forall|t: int| 0 <= t < walks[k].len() implies id_views(visited@).contains(#[trigger] walks[k][t]) by {
                                        if t < prev.len() {
                                            assert(walks[k][t] == prev[t]);
                                            assert(id_views(old_visited).contains(prev[t]));
                                            let j = id_views(old_visited).index_of(prev[t]);
                                            assert(id_views(visited@)[j] == prev[t]);
                                        }
                                    }
                                }
                            }
                            assert forall|k: int| 0 <= k < visited.len() implies u.contains(#[trigger] visited@[k]@) by {
                                if k < visited.len() - 1 {
                                    assert(visited@[k] == old_visited[k]);
                                }
                            }
                            lemma_distinct_within(id_views(visited@), u);
                        }
                    },
                }
                proof {
                    assert(id_views(visited@).contains(next@));
                }
            }
            proof {
                let sv = id_views(visited@);
                let h = visited@[head as int]@;
                assert forall|j: int| 0 <= j < i + 1 implies (#[trigger] links@[j].from@ == h && fv[j] < 1 ==> sv.contains(links@[j].to@)) && (
                    links@[j].to@ == h && fv[j] > -1 ==> sv.contains(links@[j].from@)) by {
                    if j == i {
                        assert(fv[j] == flow@[j] as int);
                        if links@[j].from@ == h && links@[j].to@ == h {
                            assert(sv[head as int] == h);
                        }
                    }
                }
            }
            i = i + 1;
        }
        proof {
            lemma_distinct_within(id_views(visited@), u);
        }
        head = head + 1;
    }
    let ghost found = id_views(visited@).to_set();
    proof {
        id_views(visited@).unique_seq_to_set();
        assert(id_views(visited@)[0] == a@);
        assert forall|i: int| 0 <= i < links.len() implies (found.contains(#[trigger] links@[i].from@) && fv[i] < 1
            ==> found.contains(links@[i].to@)) && (found.contains(links@[i].to@) && fv[i] > -1 ==> found.contains(links@[i].from@)) by {
            if found.contains(links@[i].from@) {
                let k = id_views(visited@).index_of(links@[i].from@);
                assert(visited@[k]@ == links@[i].from@);
                assert(residual_explored(links@, fv, id_views(visited@), visited@[k]@, links.len() as int));
            }
            if found.contains(links@[i].to@) {
                let k = id_views(visited@).index_of(links@[i].to@);
                assert(visited@[k]@ == links@[i].to@);
                assert(residual_explored(links@, fv, id_views(visited@), visited@[k]@, links.len() as int));
            }
        }
    }
    match find_id(&visited, b) {
        Some(k) => {
            let p = paths[k].clone();
            proof {
                assert(p@ =~= paths@[k as int]@);
            }
            (Some(p), Ghost(walks[k as int]), Ghost(found))
        },
        None => {
            proof {
                if found.contains(b@) {
                    let j = id_views(visited@).index_of(b@);
                    assert(visited@[j]@ == b@);
                }
            }
            (None, Ghost(walks[0]), Ghost(found))
        },
    }
}

/// A residual walk without repeated nodes crosses no link twice.
proof fn lemma_residual_walk_links_distinct(
    links: Seq<HyphaeLink>,
    flow: Seq<int>,
    nodes: Seq<Seq<char>>,
    edges: Seq<int>,
    t1: int,
    t2: int,
)
    requires
        is_residual_walk(links, flow, nodes, edges),
        nodes.no_duplicates(),
        0 <= t1 < t2 < edges.len(),
    ensures
        edges[t1] != edges[t2],
{
    if edges[t1] == edges[t2] {
        let l = links[edges[t1]];
        assert(residual_arc(l, flow[edges[t1]], nodes[t1], nodes[t1 + 1]));
        assert(residual_arc(l, flow[edges[t2]], nodes[t2], nodes[t2 + 1]));
        assert(nodes[t1] != nodes[t1 + 1]);
        assert(nodes[t1] != nodes[t2 + 1]);
        assert(nodes[t1 + 1] != nodes[t2 + 1]);
    }
}

/// Sends one more unit from `a` to `b` along the residual walk `p`.
pub(crate) fn augment(
    links: &Vec<HyphaeLink>,
    flow: &mut Vec<i64>,
    p: &Vec<usize>,
    a: &str,
    nodes: Ghost<Seq<Seq<char>>>,
    b: Ghost<Seq<char>>,
)
    requires
        old(flow).len() == links.len(),
        is_flow(links@, flow_view(old(flow)@), a@, b@),
        a@ != b@,
        is_residual_walk(links@, flow_view(old(flow)@), nodes@, as_ints(p@)),
        nodes@[0] == a@,
        nodes@[nodes@.len() - 1] == b@,
        nodes@.no_duplicates(),
    ensures
        final(flow).len() == links.len(),
        is_flow(links@, flow_view(final(flow)@), a@, b@),
        net_out(links@, flow_view(final(flow)@), a@, links.len() as int) == net_out(
            links@,
            flow_view(old(flow)@),
            a@,
            links.len() as int,
        ) + 1,
{
    let ghost f0 = flow_view(flow@);
    let ghost pe = as_ints(p@);
    let ghost ns = nodes@;
    let ghost n = links.len() as int;
    let mut cur: String = a.to_owned();
    let mut t: usize = 0;
    while t < p.len()
        invariant
            flow.len() == links.len(),
            n == links.len(),
            pe == as_ints(p@),
            ns == nodes@,
            is_residual_walk(links@, f0, ns, pe),
            ns.no_duplicates(),
            ns[0] == a@,
            t <= p.len(),
            cur@ == ns[t as int],
            forall|i: int|
                0 <= i < links.len() ==> -1 <= #[trigger] flow_view(flow@)[i] <= 1 && (links@[i].from@
                    == links@[i].to@ ==> flow_view(flow@)[i] == 0),
            forall|k: int| t <= k < pe.len() ==> flow_view(flow@)[#[trigger] pe[k]] == f0[pe[k]],
            forall|x: Seq<char>|
                #[trigger] net_out(links@, flow_view(flow@), x, n) == net_out(links@, f0, x, n) + (if x == a@ {
                    1int
                } else {
                    0int
                }) - (if x == ns[t as int] {
                    1int
                } else {
                    0int
                }),
        decreases p.len() - t,
    {
        let e = p[t];
        let ghost fv = flow_view(flow@);
        let ghost te = t as int;
        proof {
            assert(pe[te] == e as int);
            assert(0 <= pe[te] < links.len());
            assert(residual_arc(links@[e as int], f0[e as int], ns[te], ns[te + 1]));
            assert(ns[te] != ns[te + 1]);
            assert(fv[e as int] == f0[e as int]);
            assert forall|k: int| t + 1 <= k < pe.len() implies pe[k] != e as int by {
                lemma_residual_walk_links_distinct(links@, f0, ns, pe, te, k);
            }
        }
        let link = &links[e];
        if link.from == cur {
            let v = flow[e] + 1;
            flow.set(e, v);
            cur = link.to.clone();
            proof {
                assert(flow_view(flow@) =~= fv.update(e as int, fv[e as int] + 1));
                assert forall|x: Seq<char>| #[trigger] net_out(links@, flow_view(flow@), x, n) == net_out(links@, f0, x, n) + (if x == a@ {
                    1int
                } else {
                    0int
                }) - (if x == ns[te + 1] {
                    1int
                } else {
                    0int
                }) by {
                    lemma_net_out_update(links@, fv, e as int, 1, x, n);
                }
            }
        } else {
            let v = flow[e] - 1;
            flow.set(e, v);
            cur = link.from.clone();
            proof {
                assert(flow_view(flow@) =~= fv.update(e as int, fv[e as int] - 1));
                assert forall|x: Seq<char>| #[trigger] net_out(links@, flow_view(flow@), x, n) == net_out(links@, f0, x, n) + (if x == a@ {
                    1int
                } else {
                    0int
                }) - (if x == ns[te + 1] {
                    1int
                } else {
                    0int
                }) by {
                    lemma_net_out_update(links@, fv, e as int, -1, x, n);
                }
            }
        }
        proof {
            let fw = flow_view(flow@);
            assert forall|k: int| t + 1 <= k < pe.len() implies fw[#[trigger] pe[k]] == f0[pe[k]] by {
                assert(pe[k] != e as int);
            }
        }
        t = t + 1;
    }
    proof {
        let fw = flow_view(flow@);
        assert(ns[t as int] == b@);
        assert forall|x: Seq<char>| x != a@ && x != b@ implies #[trigger] net_out(links@, fw, x, n) == 0 by {
            assert(net_out(links@, f0, x, n) == 0);
        }
        assert(net_out(links@, fw, a@, n) == net_out(links@, f0, a@, n) + 1);
    }
}

pub proof fn lemma_net_out_zero(links: Seq<HyphaeLink>, flow: Seq<int>, x: Seq<char>, n: int)
    requires
        n <= flow.len(),
        forall|j: int| 0 <= j < flow.len() ==> flow[j] == 0,
    ensures
        net_out(links, flow, x, n) == 0,
    decreases n,
{
    if n > 0 {
        lemma_net_out_zero(links, flow, x, n - 1);
    }
}

/// Any links whose failure cuts `b` off from `a` are at least as many as
/// the value of a flow from `a` to `b`.
pub proof fn lemma_flow_bounds_cuts(links: Seq<HyphaeLink>, flow: Seq<int>, a: Seq<char>, b: Seq<char>, removed: Seq<int>)
    requires
        is_flow(links, flow, a, b),
        a != b,
        !connected_in(links, mask_without(links.len(), removed), a, b),
    ensures
        net_out(links, flow, a, links.len() as int) <= removed.len(),
{
    let mask = mask_without(links.len(), removed);
    let s = Set::new(|x: Seq<char>| connected_in(links, mask, a, x));
    let u = universe(links, a);
    lemma_universe(links, a);
    assert(s.subset_of(u)) by {
        assert forall|x: Seq<char>| s.contains(x) implies u.contains(x) by {
            let (ns, es) = choose|ns: Seq<Seq<char>>, es: Seq<int>| #[trigger] is_walk_between(links, mask, ns, es, a, x);
            assert forall|i: int, p: Seq<char>, q: Seq<char>|
                0 <= i < links.len() && i < mask.len() && mask[i] && #[trigger] joins(links[i], p, q) && u.contains(p)
                implies u.contains(q) by {
            }
            lemma_closed_set_holds_walk(links, mask, u, ns, es, a, x);
        }
    }
    vstd::set_lib::lemma_len_subset(s, u);
    lemma_walk_here(links, mask, a);
    assert forall|i: int|
        0 <= i < links.len() && s.contains(#[trigger] links[i].from@) != s.contains(links[i].to@) implies removed.contains(i) by {
        if !removed.contains(i) {
            assert(mask[i]);
            if s.contains(links[i].from@) {
                let (ns, es) = choose|ns: Seq<Seq<char>>, es: Seq<int>| #[trigger] is_walk_between(links, mask, ns, es, a, links[i].from@);
                lemma_walk_push(links, mask, ns, es, a, links[i].from@, i, links[i].to@);
            } else {
                let (ns, es) = choose|ns: Seq<Seq<char>>, es: Seq<int>| #[trigger] is_walk_between(links, mask, ns, es, a, links[i].to@);
                lemma_walk_push(links, mask, ns, es, a, links[i].to@, i, links[i].from@);
            }
        }
    }
    lemma_cut_bounds_flow(links, flow, a, b, s, removed);
}

/// Some `m` failed links cut `b` off from `a`.
pub open spec fn cut_of_size(links: Seq<HyphaeLink>, a: Seq<char>, b: Seq<char>, m: nat) -> bool {
    exists|removed: Seq<int>|
        removed.len() == m && !#[trigger] connected_in(links, mask_without(links.len(), removed), a, b)
}

proof fn lemma_first_cut(links: Seq<HyphaeLink>, a: Seq<char>, b: Seq<char>, k: nat, top: nat)
    requires
        a != b,
        k <= top,
        cut_of_size(links, a, b, top),
        forall|m: nat| m < k ==> !#[trigger] cut_of_size(links, a, b, m),
    ensures
        exists|c: nat| #[trigger] is_edge_connectivity(links, a, b, c),
    decreases top - k,
{
    if cut_of_size(links, a, b, k) {
        assert forall|removed: Seq<int>| removed.len() < k implies #[trigger] connected_in(
            links,
            mask_without(links.len(), removed),
            a,
            b,
        ) by {
            assert(!cut_of_size(links, a, b, removed.len()));
        }
        assert(is_edge_connectivity(links, a, b, k));
    } else {
        assert forall|m: nat| m < k + 1 implies !#[trigger] cut_of_size(links, a, b, m) by {}
        lemma_first_cut(links, a, b, k + 1, top);
    }
}

/// Every two nodes have an edge connectivity: failing every link cuts any
/// node off from any other.
pub proof fn lemma_edge_connectivity_exists(links: Seq<HyphaeLink>, a: Seq<char>, b: Seq<char>)
    ensures
        exists|c: nat| #[trigger] is_edge_connectivity(links, a, b, c),
{
    if a == b {
        assert(is_edge_connectivity(links, a, b, 0));
    } else {
        let all = Seq::new(links.len(), |i: int| i);
        let mask = mask_without(links.len(), all);
        if connected_in(links, mask, a, b) {
            let (ns, es) = choose|ns: Seq<Seq<char>>, es: Seq<int>| #[trigger] is_walk_between(links, mask, ns, es, a, b);
            assert(es.len() > 0);
            assert(0 <= es[0] < links.len());
            assert(all[es[0]] == es[0]);
            assert(mask[es[0]]);
        }
        assert(cut_of_size(links, a, b, links.len()));
        lemma_first_cut(links, a, b, 0, links.len());
    }
}

} // verus!
