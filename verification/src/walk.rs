//! Walks through a set of links, reachability, and a breadth-first
//! exploration that records one walk to every node it finds.
use vstd::prelude::*;
use crate::hyphae_link::HyphaeLink;
use crate::ident::{id_views, find_id};

verus! {

broadcast use vstd::seq_lib::group_seq_properties;

/// Link `l` joins `a` and `b` (links are undirected).
pub open spec fn joins(l: HyphaeLink, a: Seq<char>, b: Seq<char>) -> bool {
    (l.from@ == a && l.to@ == b) || (l.from@ == b && l.to@ == a)
}

/// No two links join the same two nodes.
pub open spec fn no_parallel_links(links: Seq<HyphaeLink>) -> bool {
    forall|i: int, j: int|
        #![trigger links[i], links[j]]
        0 <= i < j < links.len() ==> !joins(links[i], links[j].from@, links[j].to@)
}

/// `nodes` is a walk whose `k`-th step crosses link `edges[k]`.
pub open spec fn is_link_walk(links: Seq<HyphaeLink>, nodes: Seq<Seq<char>>, edges: Seq<int>) -> bool {
    &&& nodes.len() == edges.len() + 1
    &&& forall|k: int|
        0 <= k < edges.len() ==> 0 <= #[trigger] edges[k] < links.len() && joins(
            links[edges[k]],
            nodes[k],
            nodes[k + 1],
        )
}

/// Every link that the walk crosses is enabled in `mask`.
pub open spec fn uses_only(edges: Seq<int>, mask: Seq<bool>) -> bool {
    forall|k: int| 0 <= k < edges.len() ==> #[trigger] mask[edges[k]]
}

/// A walk from `a` to `b` over the enabled links.
pub open spec fn is_walk_between(
    links: Seq<HyphaeLink>,
    mask: Seq<bool>,
    nodes: Seq<Seq<char>>,
    edges: Seq<int>,
    a: Seq<char>,
    b: Seq<char>,
) -> bool {
    &&& is_link_walk(links, nodes, edges)
    &&& uses_only(edges, mask)
    &&& nodes[0] == a
    &&& nodes[nodes.len() - 1] == b
}

/// `b` can be reached from `a` over the enabled links.
pub open spec fn connected_in(links: Seq<HyphaeLink>, mask: Seq<bool>, a: Seq<char>, b: Seq<char>) -> bool {
    exists|nodes: Seq<Seq<char>>, edges: Seq<int>| #[trigger]
        is_walk_between(links, mask, nodes, edges, a, b)
}

/// Every link enabled.
pub open spec fn full_mask(n: nat) -> Seq<bool> {
    Seq::new(n, |i: int| true)
}

/// `b` can be reached from `a` over the links.
pub open spec fn reachable(links: Seq<HyphaeLink>, a: Seq<char>, b: Seq<char>) -> bool {
    connected_in(links, full_mask(links.len()), a, b)
}

/// The set of nodes reachable from `a`.
pub open spec fn reach_set(links: Seq<HyphaeLink>, a: Seq<char>) -> Set<Seq<char>> {
    Set::new(|b: Seq<char>| reachable(links, a, b))
}

/// Every enabled link below index `n` that touches `x` leads to a node of `seen`.
pub open spec fn explored_upto(
    links: Seq<HyphaeLink>,
    mask: Seq<bool>,
    seen: Seq<Seq<char>>,
    x: Seq<char>,
    n: int,
) -> bool {
    forall|j: int|
        0 <= j < n && mask[j] ==> (#[trigger] links[j].from@ == x ==> seen.contains(links[j].to@)) && (
        links[j].to@ == x ==> seen.contains(links[j].from@))
}

/// Link indices as integers.
pub open spec fn as_ints(v: Seq<usize>) -> Seq<int> {
    v.map_values(|e: usize| e as int)
}

/// All identifiers a walk from `start` can meet: `start` and every endpoint.
pub open spec fn universe(links: Seq<HyphaeLink>, start: Seq<char>) -> Set<Seq<char>> {
    (Seq::new(links.len(), |i: int| links[i].from@) + Seq::new(links.len(), |i: int| links[i].to@)).push(
        start,
    ).to_set()
}

pub proof fn lemma_universe(links: Seq<HyphaeLink>, start: Seq<char>)
    ensures
        universe(links, start).finite(),
        universe(links, start).contains(start),
        forall|i: int|
            0 <= i < links.len() ==> universe(links, start).contains(#[trigger] links[i].from@)
                && universe(links, start).contains(links[i].to@),
{
    let s = (Seq::new(links.len(), |i: int| links[i].from@) + Seq::new(
        links.len(),
        |i: int| links[i].to@,
    )).push(start);
    assert(s[s.len() - 1] == start);
    assert forall|i: int| 0 <= i < links.len() implies universe(links, start).contains(
        #[trigger] links[i].from@,
    ) && universe(links, start).contains(links[i].to@) by {
        assert(s[i] == links[i].from@);
        assert(s[links.len() + i] == links[i].to@);
    }
}

/// A sequence without repeats inside a finite set is no longer than the set.
pub proof fn lemma_distinct_within(s: Seq<Seq<char>>, u: Set<Seq<char>>)
    requires
        s.no_duplicates(),
        u.finite(),
        forall|k: int| 0 <= k < s.len() ==> u.contains(#[trigger] s[k]),
    ensures
        s.len() <= u.len(),
{
    s.unique_seq_to_set();
    assert(s.to_set().subset_of(u));
    vstd::set_lib::lemma_len_subset(s.to_set(), u);
}

/// The walk of length zero.
pub proof fn lemma_walk_here(links: Seq<HyphaeLink>, mask: Seq<bool>, a: Seq<char>)
    ensures
        is_walk_between(links, mask, seq![a], Seq::empty(), a, a),
        connected_in(links, mask, a, a),
{
    assert(is_walk_between(links, mask, seq![a], Seq::empty(), a, a));
}

/// A walk extended by one more enabled link.
pub proof fn lemma_walk_push(
    links: Seq<HyphaeLink>,
    mask: Seq<bool>,
    nodes: Seq<Seq<char>>,
    edges: Seq<int>,
    a: Seq<char>,
    b: Seq<char>,
    e: int,
    c: Seq<char>,
)
    requires
        is_walk_between(links, mask, nodes, edges, a, b),
        0 <= e < links.len(),
        e < mask.len(),
        mask[e],
        joins(links[e], b, c),
    ensures
        is_walk_between(links, mask, nodes.push(c), edges.push(e), a, c),
        connected_in(links, mask, a, c),
{
    let n2 = nodes.push(c);
    let e2 = edges.push(e);
    assert forall|k: int| 0 <= k < e2.len() implies 0 <= #[trigger] e2[k] < links.len() && joins(
        links[e2[k]],
        n2[k],
        n2[k + 1],
    ) by {
        if k < edges.len() {
            assert(e2[k] == edges[k]);
            assert(n2[k] == nodes[k]);
            assert(n2[k + 1] == nodes[k + 1]);
        }
    }
    assert(is_walk_between(links, mask, n2, e2, a, c));
}

/// A set holding `a` and closed under enabled links holds every node that
/// can be reached from `a`.
pub proof fn lemma_closed_set_holds_walk(
    links: Seq<HyphaeLink>,
    mask: Seq<bool>,
    s: Set<Seq<char>>,
    nodes: Seq<Seq<char>>,
    edges: Seq<int>,
    a: Seq<char>,
    b: Seq<char>,
)
    requires
        mask.len() == links.len(),
        s.contains(a),
        forall|i: int, x: Seq<char>, y: Seq<char>|
            0 <= i < links.len() && i < mask.len() && mask[i] && #[trigger] joins(links[i], x, y)
                && s.contains(x) ==> s.contains(y),
        is_walk_between(links, mask, nodes, edges, a, b),
    ensures
        s.contains(b),
    decreases edges.len(),
{
    if edges.len() > 0 {
        let n2 = nodes.drop_last();
        let e2 = edges.drop_last();
        let m = n2[n2.len() - 1];
        assert(is_walk_between(links, mask, n2, e2, a, m)) by {
            assert forall|k: int| 0 <= k < e2.len() implies 0 <= #[trigger] e2[k] < links.len()
                && joins(links[e2[k]], n2[k], n2[k + 1]) by {
                assert(e2[k] == edges[k]);
            }
        }
        lemma_closed_set_holds_walk(links, mask, s, n2, e2, a, m);
        let k = edges.len() - 1;
        assert(joins(links[edges[k]], nodes[k], nodes[k + 1]));
        assert(mask[edges[k]]);
        assert(nodes[k] == m);
    }
}

/// Explores, breadth first, the nodes reachable from `start` over the
/// enabled links.  Returns the nodes in the order they were found.
pub fn explore(links: &Vec<HyphaeLink>, mask: &Vec<bool>, start: &str) -> (r: Vec<String>)
    requires
        mask.len() == links.len(),
    ensures
        r.len() >= 1,
        r@[0]@ == start@,
        id_views(r@).no_duplicates(),
        forall|x: Seq<char>| connected_in(links@, mask@, start@, x) <==> id_views(r@).contains(x),
{
    let ghost u = universe(links@, start@);
    proof {
        lemma_universe(links@, start@);
    }
    let mut visited: Vec<String> = Vec::new();
    visited.push(start.to_owned());
    proof {
        lemma_walk_here(links@, mask@, start@);
        assert(id_views(visited@) =~= seq![start@]);
    }
    let mut head: usize = 0;
    while head < visited.len()
        invariant
            mask.len() == links.len(),
            u == universe(links@, start@),
            u.finite(),
            1 <= visited.len(),
            head <= visited.len(),
            visited@[0]@ == start@,
            id_views(visited@).no_duplicates(),
            visited.len() <= u.len(),
            forall|k: int| 0 <= k < visited.len() ==> u.contains(#[trigger] visited@[k]@),
            forall|k: int| 0 <= k < visited.len() ==> connected_in(links@, mask@, start@, #[trigger] visited@[k]@),
            forall|k: int|
                0 <= k < head ==> explored_upto(
                    links@,
                    mask@,
                    id_views(visited@),
                    #[trigger] visited@[k]@,
                    links.len() as int,
                ),
        decreases u.len() - head,
    {
        let mut i: usize = 0;
        while i < links.len()
            invariant
                mask.len() == links.len(),
                u == universe(links@, start@),
                u.finite(),
                1 <= visited.len(),
                head < visited.len(),
                i <= links.len(),
                visited@[0]@ == start@,
                id_views(visited@).no_duplicates(),
                forall|k: int| 0 <= k < visited.len() ==> u.contains(#[trigger] visited@[k]@),
                forall|k: int| 0 <= k < visited.len() ==> connected_in(links@, mask@, start@, #[trigger] visited@[k]@),
                forall|k: int|
                    0 <= k < head ==> explored_upto(
                        links@,
                        mask@,
                        id_views(visited@),
                        #[trigger] visited@[k]@,
                        links.len() as int,
                    ),
                explored_upto(links@, mask@, id_views(visited@), visited@[head as int]@, i as int),
            decreases links.len() - i,
        {
            if mask[i] {
                let link = &links[i];
                let from_here = link.from == visited[head];
                let to_here = link.to == visited[head];
                if from_here || to_here {
                    let next: &String = if from_here {
                        &link.to
                    } else {
                        &link.from
                    };
                    match find_id(&visited, next.as_str()) {
                        Some(found) => {
                            assert(id_views(visited@)[found as int] == next@);
                        },
                        None => {
                            let ghost old_visited = visited@;
                            proof {
                                lemma_universe(links@, start@);
                                assert(u.contains(next@));
                                let h = visited@[head as int]@;
                                assert(connected_in(links@, mask@, start@, h));
                                let (ns, es) = choose|ns: Seq<Seq<char>>, es: Seq<int>|
                                    #[trigger] is_walk_between(links@, mask@, ns, es, start@, h);
                                lemma_walk_push(links@, mask@, ns, es, start@, h, i as int, next@);
                            }
                            visited.push(next.clone());
                            proof {
                                assert(id_views(visited@) =~= id_views(old_visited).push(next@));
                                assert(id_views(visited@)[visited.len() - 1] == next@);
                                assert forall|k: int| 0 <= k < visited.len() implies u.contains(#[trigger] visited@[k]@)
                                    && connected_in(links@, mask@, start@, visited@[k]@) by {
                                    if k < visited.len() - 1 {
                                        assert(visited@[k] == old_visited[k]);
                                    }
                                }
                            }
                        },
                    }
                    proof {
                        assert(id_views(visited@).contains(next@));
                    }
                }
            }
            i = i + 1;
        }
        proof {
            lemma_distinct_within(id_views(visited@), u);
        }
        head = head + 1;
    }
    proof {
        let s = id_views(visited@).to_set();
        assert forall|x: Seq<char>| connected_in(links@, mask@, start@, x) implies id_views(
            visited@,
        ).contains(x) by {
            let (nodes, edges) = choose|nodes: Seq<Seq<char>>, edges: Seq<int>|
                #[trigger] is_walk_between(links@, mask@, nodes, edges, start@, x);
            assert forall|i: int, a: Seq<char>, b: Seq<char>|
                0 <= i < links.len() && i < mask.len() && mask@[i] && #[trigger] joins(
                    links@[i],
                    a,
                    b,
                ) && s.contains(a) implies s.contains(b) by {
                let k = id_views(visited@).index_of(a);
                assert(visited@[k]@ == a);
                assert(explored_upto(links@, mask@, id_views(visited@), visited@[k]@, links.len() as int));
                assert(links@[i].from@ == a || links@[i].to@ == a);
            }
            assert(s.contains(start@)) by {
                assert(id_views(visited@)[0] == start@);
            }
            lemma_closed_set_holds_walk(links@, mask@, s, nodes, edges, start@, x);
        }
        assert forall|x: Seq<char>| id_views(visited@).contains(x) implies connected_in(
            links@,
            mask@,
            start@,
            x,
        ) by {
            let k = id_views(visited@).index_of(x);
            assert(visited@[k]@ == x);
        }
    }
    visited
}

/// Walks chain: one from `a` to `b` followed by one from `b` to `c`.
pub proof fn lemma_connected_trans(
    links: Seq<HyphaeLink>,
    mask: Seq<bool>,
    a: Seq<char>,
    b: Seq<char>,
    c: Seq<char>,
)
    requires
        connected_in(links, mask, a, b),
        connected_in(links, mask, b, c),
    ensures
        connected_in(links, mask, a, c),
{
    let (n1, e1) = choose|nodes: Seq<Seq<char>>, edges: Seq<int>| #[trigger]
        is_walk_between(links, mask, nodes, edges, a, b);
    let (n2, e2) = choose|nodes: Seq<Seq<char>>, edges: Seq<int>| #[trigger]
        is_walk_between(links, mask, nodes, edges, b, c);
    let n = n1 + n2.drop_first();
    let e = e1 + e2;
    assert forall|k: int| 0 <= k < e.len() implies 0 <= #[trigger] e[k] < links.len() && joins(
        links[e[k]],
        n[k],
        n[k + 1],
    ) by {
        if k < e1.len() {
            assert(e[k] == e1[k]);
            assert(n[k] == n1[k]);
            if k + 1 < n1.len() {
                assert(n[k + 1] == n1[k + 1]);
            }
        } else {
            let j = k - e1.len();
            assert(e[k] == e2[j]);
            assert(n[k + 1] == n2[j + 1]);
            if j == 0 {
                assert(n[k] == n1[n1.len() - 1]);
            } else {
                assert(n[k] == n2[j]);
            }
        }
    }
    assert forall|k: int| 0 <= k < e.len() implies #[trigger] mask[e[k]] by {
        if k < e1.len() {
            assert(e[k] == e1[k]);
        } else {
            assert(e[k] == e2[k - e1.len()]);
        }
    }
    if n2.len() > 1 {
        assert(n[n.len() - 1] == n2[n2.len() - 1]);
    }
    assert(is_walk_between(links, mask, n, e, a, c));
}

/// Links are undirected: a walk from `a` to `b`, read backwards, leads from
/// `b` to `a`.
pub proof fn lemma_connected_symm(links: Seq<HyphaeLink>, mask: Seq<bool>, a: Seq<char>, b: Seq<char>)
    requires
        connected_in(links, mask, a, b),
    ensures
        connected_in(links, mask, b, a),
{
    let (n1, e1) = choose|nodes: Seq<Seq<char>>, edges: Seq<int>| #[trigger]
        is_walk_between(links, mask, nodes, edges, a, b);
    let n = n1.reverse();
    let e = e1.reverse();
    let m: int = e1.len() as int;
    assert forall|k: int| 0 <= k < e.len() implies 0 <= #[trigger] e[k] < links.len() && joins(
        links[e[k]],
        n[k],
        n[k + 1],
    ) by {
        assert(e[k] == e1[m - 1 - k]);
        assert(n[k] == n1[m - k]);
        assert(n[k + 1] == n1[m - 1 - k]);
        assert(joins(links[e1[m - 1 - k]], n1[m - 1 - k], n1[m - 1 - k + 1]));
    }
    assert forall|k: int| 0 <= k < e.len() implies #[trigger] mask[e[k]] by {
        assert(e[k] == e1[m - 1 - k]);
    }
    assert(n[0] == n1[m]);
    assert(n[n.len() - 1] == n1[0]);
    assert(is_walk_between(links, mask, n, e, b, a));
}

/// Every link enabled, as a vector.
pub fn all_enabled(n: usize) -> (r: Vec<bool>)
    ensures
        r@ == full_mask(n as nat),
{
    let mut r: Vec<bool> = Vec::new();
    let mut i: usize = 0;
    while i < n
        invariant
            i <= n,
            r@ == full_mask(i as nat),
        decreases n - i,
    {
        r.push(true);
        i = i + 1;
        assert(r@ =~= full_mask(i as nat));
    }
    r
}

} // verus!
