use vstd::prelude::*;
use vstd::set_lib::lemma_len_subset;
use std::collections::HashMap;
use std::collections::HashSet;
use crate::graph::Graph;

verus! {

broadcast use vstd::std_specs::hash::group_hash_axioms, vstd::seq_lib::seq_to_set_is_finite;

/// There is a directed walk of exactly `k` hops from `s` to `t`.
pub open spec fn pathlen(g: Graph, s: usize, t: usize, k: nat) -> bool
    decreases k,
{
    if k == 0 {
        s == t
    } else {
        exists|m: usize| pathlen(g, s, m, (k - 1) as nat) && g.adj(m).contains(t)
    }
}

/// Some directed walk from `s` reaches `t`.
pub open spec fn reachable(g: Graph, s: usize, t: usize) -> bool {
    exists|k: nat| pathlen(g, s, t, k)
}

/// `d` is the minimum hop count over all directed walks from `s` to `t`.
pub open spec fn is_min_dist(g: Graph, s: usize, t: usize, d: nat) -> bool {
    &&& pathlen(g, s, t, d)
    &&& forall|k: nat| k < d ==> !pathlen(g, s, t, k)
}

/// What one breadth-first search from `source` returns: the keys are exactly
/// the vertices reachable from `source`, and each is mapped to its minimum
/// hop distance. No two maps can satisfy this for the same graph and source.
pub open spec fn bfs_post(g: Graph, source: usize, m: Map<usize, usize>) -> bool {
    &&& forall|t: usize|
        #![trigger m.contains_key(t)]
        #![trigger reachable(g, source, t)]
        m.contains_key(t) <==> reachable(g, source, t)
    &&& forall|t: usize| #[trigger] m.contains_key(t) ==> is_min_dist(g, source, t, m[t] as nat)
}

/// Minimum distances are unique.
pub proof fn lemma_min_dist_unique(g: Graph, s: usize, t: usize, d1: nat, d2: nat)
    requires
        is_min_dist(g, s, t, d1),
        is_min_dist(g, s, t, d2),
    ensures
        d1 == d2,
{
    if d1 < d2 {
        assert(pathlen(g, s, t, d1));
        assert(false);
    }
    if d2 < d1 {
        assert(pathlen(g, s, t, d2));
        assert(false);
    }
}

/// Determinism of the search: any two maps that satisfy the breadth-first
/// postcondition for the same graph and source are equal, so repeated runs
/// on an unmodified graph return identical distance maps.
pub proof fn lemma_bfs_deterministic(g: Graph, s: usize, m1: Map<usize, usize>, m2: Map<usize, usize>)
    requires
        bfs_post(g, s, m1),
        bfs_post(g, s, m2),
    ensures
        m1 == m2,
{
    assert forall|t: usize| m1.contains_key(t) implies m2.contains_key(t) by {
        assert(reachable(g, s, t));
    }
    assert forall|t: usize| m2.contains_key(t) implies m1.contains_key(t) by {
        assert(reachable(g, s, t));
    }
    assert forall|t: usize| #[trigger] m1.contains_key(t) implies m1[t] == m2[t] by {
        lemma_min_dist_unique(g, s, t, m1[t] as nat, m2[t] as nat);
    }
    assert(m1 =~= m2);
}

/// A set that contains `s` and is closed under out-edges contains everything
/// reachable from `s`.
proof fn lemma_reach_closed(g: Graph, s: usize, vis: Set<usize>, t: usize, k: nat)
    requires
        vis.contains(s),
        forall|v: usize, w: usize|
            vis.contains(v) && #[trigger] g.adj(v).contains(w) ==> vis.contains(w),
        pathlen(g, s, t, k),
    ensures
        vis.contains(t),
    decreases k,
{
    if k > 0 {
        let m = choose|m: usize| pathlen(g, s, m, (k - 1) as nat) && g.adj(m).contains(t);
        lemma_reach_closed(g, s, vis, m, (k - 1) as nat);
    }
}

/// The queue of a running search never holds more entries than the graph has
/// vertices, plus one for a source that is not itself a vertex: its entries
/// carry distinct vertices drawn from the vertex list and the source.
proof fn lemma_queue_len_bound(g: Graph, s: usize, q: Seq<(usize, usize)>)
    requires
        g.wf(),
        forall|i: int, j: int| 0 <= i < j < q.len() ==> (#[trigger] q[i]).0 != (#[trigger] q[j]).0,
        forall|i: int| 0 <= i < q.len() ==> ((#[trigger] q[i]).0 == s || g.verts().contains(q[i].0)),
    ensures
        q.len() <= g.verts().len() + 1,
{
    let firsts = q.map_values(|e: (usize, usize)| e.0);
    assert(firsts.no_duplicates());
    firsts.unique_seq_to_set();
    let allowed = g.verts().to_set().insert(s);
    assert forall|x: usize| firsts.to_set().contains(x) implies allowed.contains(x) by {
        let i = choose|i: int| 0 <= i < firsts.len() && firsts[i] == x;
        assert(q[i].0 == x);
    }
    g.lemma_wf_facts();
    assert(g.verts().no_duplicates());
    g.verts().unique_seq_to_set();
    lemma_len_subset(firsts.to_set(), allowed);
}

/// The frontier step: `q` is the queue history of a search from `s`, all
/// entries up to `p` have had every out-neighbor discovered, every entry from
/// `p` on sits at distance `d` or more, and everything closer than `d` is
/// already discovered. Then everything at distance up to `d` is discovered.
proof fn lemma_frontier_step(
    g: Graph,
    s: usize,
    q: Seq<(usize, usize)>,
    p: int,
    d: usize,
    vis: Set<usize>,
    t: usize,
    k: nat,
)
    requires
        vis.contains(s),
        forall|i: int|
            0 <= i < q.len() ==> is_min_dist(g, s, (#[trigger] q[i]).0, q[i].1 as nat),
        forall|v: usize| #[trigger] vis.contains(v)
            ==> exists|i: int| 0 <= i < q.len() && q[i].0 == v,
        forall|i: int, w: usize|
            0 <= i < p && #[trigger] g.adj(q[i].0).contains(w) ==> vis.contains(w),
        forall|i: int| p <= i < q.len() ==> (#[trigger] q[i]).1 >= d,
        forall|t2: usize, k2: nat|
            #[trigger] pathlen(g, s, t2, k2) && k2 < d ==> vis.contains(t2),
        pathlen(g, s, t, k),
        k <= d,
    ensures
        vis.contains(t),
{
    if k == 0 {
        assert(t == s);
    } else if k < d {
    } else {
        let m = choose|m: usize| pathlen(g, s, m, (k - 1) as nat) && g.adj(m).contains(t);
        assert(vis.contains(m));
        let i = choose|i: int| 0 <= i < q.len() && q[i].0 == m;
        if i < p {
            assert(g.adj(q[i].0).contains(t));
        } else {
            assert(q[i].1 >= d);
            assert(is_min_dist(g, s, m, q[i].1 as nat));
            assert(pathlen(g, s, m, (k - 1) as nat));
            assert((k - 1) as nat >= q[i].1 as nat);
            assert(false);
        }
    }
}

/// Single-source breadth-first search. The returned map holds exactly the
/// vertices reachable from `source` — including `source` itself at distance
/// zero — each at its minimum hop distance; unreachable vertices are absent.
#[verifier::loop_isolation(false)]
#[verifier::rlimit(60)]
pub fn bfs_distances(graph: &Graph, source: usize) -> (r: HashMap<usize, usize>)
    requires
        graph.wf(),
    ensures
        bfs_post(*graph, source, r@),
        r@.contains_key(source),
        r@[source] == 0,
{
    let ghost g = *graph;
    let mut visited: HashSet<usize> = HashSet::new();
    let mut distances: HashMap<usize, usize> = HashMap::new();
    let mut queue: Vec<(usize, usize)> = Vec::new();

    queue.push((source, 0));
    visited.insert(source);
    let mut head: usize = 0;

    proof {
        g.lemma_wf_facts();
        assert(queue@.len() == 1);
        assert(queue@[0] == (source, 0usize));
    }

    while head < queue.len()
        invariant
            head <= queue@.len(),
            queue@.len() <= g.verts().len() + 1,
            queue@.len() >= 1,
            queue@[0] == (source, 0usize),
            head == 0 ==> queue@.len() == 1,
            forall|i: int, j: int|
                0 <= i < j < queue@.len() ==> (#[trigger] queue@[i]).0 != (#[trigger] queue@[j]).0,
            forall|i: int|
                0 <= i < queue@.len()
                    ==> ((#[trigger] queue@[i]).0 == source || g.verts().contains(queue@[i].0)),
            forall|i: int, j: int|
                0 <= i <= j < queue@.len() ==> (#[trigger] queue@[i]).1 <= (#[trigger] queue@[j]).1,
            head >= 1 ==> forall|j: int|
                0 <= j < queue@.len()
                    ==> (#[trigger] queue@[j]).1 <= queue@[head - 1].1 + 1,
            forall|i: int| 0 <= i < queue@.len() ==> (#[trigger] queue@[i]).1 <= i,
            forall|i: int|
                0 <= i < queue@.len()
                    ==> is_min_dist(g, source, (#[trigger] queue@[i]).0, queue@[i].1 as nat),
            forall|i: int| 0 <= i < queue@.len() ==> visited@.contains((#[trigger] queue@[i]).0),
            forall|v: usize| #[trigger] visited@.contains(v)
                ==> exists|i: int| 0 <= i < queue@.len() && queue@[i].0 == v,
            forall|i: int|
                0 <= i < head
                    ==> distances@.contains_key((#[trigger] queue@[i]).0)
                        && distances@[queue@[i].0] == queue@[i].1,
            forall|v: usize| #[trigger] distances@.contains_key(v)
                ==> exists|i: int| 0 <= i < head && queue@[i].0 == v,
            forall|i: int, w: usize|
                0 <= i < head && #[trigger] g.adj(queue@[i].0).contains(w)
                    ==> visited@.contains(w),
            head < queue@.len() ==> forall|t: usize, k: nat|
                #[trigger] pathlen(g, source, t, k) && k < queue@[head as int].1
                    ==> visited@.contains(t),
        decreases g.verts().len() + 1 - head,
    {
        let ghost q0 = queue@;
        let ghost h0 = head as int;

        let pair = queue[head];
        let node = pair.0;
        let dist = pair.1;
        head = head + 1;

        distances.insert(node, dist);
        proof {
            assert forall|i: int|
                0 <= i < head
                implies distances@.contains_key((#[trigger] queue@[i]).0)
                    && distances@[queue@[i].0] == queue@[i].1 by {
                if i < h0 {
                    assert(queue@[i].0 != node);
                }
            }
        }

        let neighbors = graph.get_neighbors(node);
        let mut j: usize = 0;
        while j < neighbors.len()
            invariant
                j <= neighbors@.len(),
                neighbors@ == g.adj(node),
                head == h0 + 1,
                node == q0[h0].0,
                dist == q0[h0].1,
                queue@.len() >= q0.len(),
                h0 < q0.len(),
                forall|i: int| 0 <= i < q0.len() ==> queue@[i] == q0[i],
                queue@.len() <= g.verts().len() + 1,
                queue@[0] == (source, 0usize),
                forall|i: int, j2: int|
                    0 <= i < j2 < queue@.len()
                        ==> (#[trigger] queue@[i]).0 != (#[trigger] queue@[j2]).0,
                forall|i: int|
                    0 <= i < queue@.len()
                        ==> ((#[trigger] queue@[i]).0 == source || g.verts().contains(queue@[i].0)),
                forall|i: int, j2: int|
                    0 <= i <= j2 < queue@.len()
                        ==> (#[trigger] queue@[i]).1 <= (#[trigger] queue@[j2]).1,
                forall|i: int|
                    0 <= i < queue@.len() ==> (#[trigger] queue@[i]).1 <= dist + 1,
                forall|i: int| 0 <= i < queue@.len() ==> (#[trigger] queue@[i]).1 <= i,
                forall|i: int|
                    0 <= i < queue@.len()
                        ==> is_min_dist(g, source, (#[trigger] queue@[i]).0, queue@[i].1 as nat),
                forall|i: int|
                    0 <= i < queue@.len() ==> visited@.contains((#[trigger] queue@[i]).0),
                forall|v: usize| #[trigger] visited@.contains(v)
                    ==> exists|i: int| 0 <= i < queue@.len() && queue@[i].0 == v,
                forall|i: int|
                    0 <= i < head
                        ==> distances@.contains_key((#[trigger] queue@[i]).0)
                            && distances@[queue@[i].0] == queue@[i].1,
                forall|v: usize| #[trigger] distances@.contains_key(v)
                    ==> exists|i: int| 0 <= i < head && queue@[i].0 == v,
                forall|i: int, w: usize|
                    0 <= i < h0 && #[trigger] g.adj(queue@[i].0).contains(w)
                        ==> visited@.contains(w),
                forall|k: int| 0 <= k < j ==> visited@.contains(#[trigger] neighbors@[k]),
                forall|t2: usize, k2: nat|
                    #[trigger] pathlen(g, source, t2, k2) && k2 < dist ==> visited@.contains(t2),
            decreases neighbors@.len() - j,
        {
            let w = neighbors[j];
            proof {
                assert(g.adj(node)[j as int] == w);
                assert(g.adj(node).contains(w));
            }
            if !visited.contains(&w) {
                proof {
                    // The new entry's distance is exact: there is a walk of
                    // dist + 1 hops, and none shorter reaches w.
                    assert(dist <= h0);
                    assert(is_min_dist(g, source, node, dist as nat));
                    assert(pathlen(g, source, node, dist as nat));
                    assert(pathlen(g, source, w, (dist + 1) as nat));
                    assert forall|k: nat| k < dist + 1 implies !pathlen(g, source, w, k) by {
                        if pathlen(g, source, w, k) {
                            lemma_frontier_step(g, source, queue@, h0, dist, visited@, w, k);
                        }
                    }
                }
                visited.insert(w);
                let ghost qpre = queue@;
                queue.push((w, dist + 1));
                proof {
                    g.lemma_wf_facts();
                    assert(g.verts().contains(w));
                    assert forall|i: int, j2: int|
                        0 <= i < j2 < queue@.len()
                        implies (#[trigger] queue@[i]).0 != (#[trigger] queue@[j2]).0 by {
                        if j2 == queue@.len() - 1 {
                            if queue@[i].0 == w {
                                assert(qpre[i].0 == w);
                            }
                        }
                    }
                    lemma_queue_len_bound(g, source, queue@);
                    assert forall|v: usize| #[trigger] distances@.contains_key(v)
                        implies exists|i: int| 0 <= i < head && queue@[i].0 == v by {
                        let i = choose|i: int| 0 <= i < head && qpre[i].0 == v;
                        assert(queue@[i].0 == v);
                    }
                    assert forall|v: usize| #[trigger] visited@.contains(v)
                        implies exists|i: int| 0 <= i < queue@.len() && queue@[i].0 == v by {
                        if v == w {
                            assert(queue@[queue@.len() - 1].0 == w);
                        } else {
                            let i = choose|i: int| 0 <= i < qpre.len() && qpre[i].0 == v;
                            assert(queue@[i].0 == v);
                        }
                    }
                }
            }
            j = j + 1;
        }
        proof {
            // Every vertex within the distance of the new queue front is
            // discovered by now: the frontier has fully advanced past `node`.
            if head < queue@.len() {
                assert forall|t: usize, k: nat|
                    #[trigger] pathlen(g, source, t, k) && k < queue@[head as int].1
                    implies visited@.contains(t) by {
                    assert(queue@[head as int].1 <= dist + 1);
                    lemma_frontier_step(g, source, queue@, head as int, dist, visited@, t, k);
                }
            }
        }
    }

    proof {
        // The queue is exhausted: the discovered set is closed under
        // out-edges, so it holds every reachable vertex, and the recorded
        // distances cover it exactly.
        assert(visited@.contains(source));
        assert forall|v: usize, w: usize|
            visited@.contains(v) && #[trigger] g.adj(v).contains(w)
            implies visited@.contains(w) by {
            let i = choose|i: int| 0 <= i < queue@.len() && queue@[i].0 == v;
            assert(g.adj(queue@[i].0).contains(w));
        }
        assert forall|t: usize| #[trigger] reachable(g, source, t)
            implies distances@.contains_key(t) by {
            let k = choose|k: nat| pathlen(g, source, t, k);
            lemma_reach_closed(g, source, visited@, t, k);
            let i = choose|i: int| 0 <= i < queue@.len() && queue@[i].0 == t;
            assert(distances@.contains_key(queue@[i].0));
        }
        assert forall|t: usize| #[trigger] distances@.contains_key(t)
            implies reachable(g, source, t) && is_min_dist(g, source, t, distances@[t] as nat) by {
            let i = choose|i: int| 0 <= i < (head as int) && queue@[i].0 == t;
            assert(is_min_dist(g, source, t, queue@[i].1 as nat));
            assert(pathlen(g, source, t, queue@[i].1 as nat));
        }
        assert(distances@.contains_key(queue@[0].0));
        assert(distances@[source] == 0);
    }
    distances
}

} // verus!
