use vstd::prelude::*;
use crate::graph::Graph;
use crate::search::bfs_distances;
use crate::search::is_min_dist;
use crate::search::lemma_min_dist_unique;
use crate::search::pathlen;
use crate::search::reachable;

verus! {

broadcast use vstd::std_specs::hash::group_hash_axioms;

/// The minimum hop distance from `s` to `t`; meaningful when `t` is
/// reachable from `s`.
pub open spec fn dist_of(g: Graph, s: usize, t: usize) -> nat {
    choose|d: nat| is_min_dist(g, s, t, d)
}

/// Over the targets `ts`: how many are reachable from `s`.
pub open spec fn pairs_count(g: Graph, s: usize, ts: Seq<usize>) -> nat
    decreases ts.len(),
{
    if ts.len() == 0 {
        0
    } else {
        pairs_count(g, s, ts.drop_last()) + (if reachable(g, s, ts.last()) {
            1nat
        } else {
            0nat
        })
    }
}

/// Over the targets `ts`: the sum of the minimum hop distances from `s` to
/// the reachable ones; unreachable targets contribute nothing.
pub open spec fn pairs_sum(g: Graph, s: usize, ts: Seq<usize>) -> nat
    decreases ts.len(),
{
    if ts.len() == 0 {
        0
    } else {
        pairs_sum(g, s, ts.drop_last()) + (if reachable(g, s, ts.last()) {
            dist_of(g, s, ts.last())
        } else {
            0nat
        })
    }
}

/// The number of ordered reachable pairs with source `s`, the self-pair
/// included.
pub open spec fn source_count(g: Graph, s: usize) -> nat {
    pairs_count(g, s, g.verts())
}

/// The sum of the recorded distances of one source's search.
pub open spec fn source_sum(g: Graph, s: usize) -> nat {
    pairs_sum(g, s, g.verts())
}

/// The pair count pooled over the sources `ss`.
pub open spec fn totals_count_over(g: Graph, ss: Seq<usize>) -> nat
    decreases ss.len(),
{
    if ss.len() == 0 {
        0
    } else {
        totals_count_over(g, ss.drop_last()) + source_count(g, ss.last())
    }
}

/// The distance sum pooled over the sources `ss`.
pub open spec fn totals_sum_over(g: Graph, ss: Seq<usize>) -> nat
    decreases ss.len(),
{
    if ss.len() == 0 {
        0
    } else {
        totals_sum_over(g, ss.drop_last()) + source_sum(g, ss.last())
    }
}

/// The number of reachable ordered pairs of the whole graph, every vertex
/// taken once as a source.
pub open spec fn total_count(g: Graph) -> nat {
    totals_count_over(g, g.verts())
}

/// The sum of the minimum hop distances over all reachable ordered pairs.
pub open spec fn total_sum(g: Graph) -> nat {
    totals_sum_over(g, g.verts())
}

/// What `distance_totals` returns: the exact pooled sum and pair count when
/// both fit in 64 bits, and nothing otherwise. The average distance is the
/// quotient of the two; a pair count of zero is the empty-graph condition,
/// which a caller must handle instead of dividing.
pub open spec fn totals_post(g: Graph, r: Option<(u64, u64)>) -> bool {
    match r {
        Some(t) => t.0 == total_sum(g) && t.1 == total_count(g),
        None => total_sum(g) > u64::MAX || total_count(g) > u64::MAX,
    }
}

/// A prefix of the targets never counts or sums more than the whole.
proof fn lemma_pairs_prefix(g: Graph, s: usize, ts: Seq<usize>, j: int)
    requires
        0 <= j <= ts.len(),
    ensures
        pairs_sum(g, s, ts.take(j)) <= pairs_sum(g, s, ts),
        pairs_count(g, s, ts.take(j)) <= pairs_count(g, s, ts),
    decreases ts.len(),
{
    if j < ts.len() {
        assert(ts.drop_last().take(j) =~= ts.take(j));
        lemma_pairs_prefix(g, s, ts.drop_last(), j);
    } else {
        assert(ts.take(j) =~= ts);
    }
}

/// A prefix of the sources never counts or sums more than the whole.
proof fn lemma_totals_prefix(g: Graph, ss: Seq<usize>, i: int)
    requires
        0 <= i <= ss.len(),
    ensures
        totals_sum_over(g, ss.take(i)) <= totals_sum_over(g, ss),
        totals_count_over(g, ss.take(i)) <= totals_count_over(g, ss),
    decreases ss.len(),
{
    if i < ss.len() {
        assert(ss.drop_last().take(i) =~= ss.take(i));
        lemma_totals_prefix(g, ss.drop_last(), i);
    } else {
        assert(ss.take(i) =~= ss);
    }
}

/// A source that stands among the targets is reachable from itself, so its
/// search records at least the self-pair.
proof fn lemma_pairs_count_pos(g: Graph, s: usize, ts: Seq<usize>)
    requires
        ts.contains(s),
    ensures
        pairs_count(g, s, ts) >= 1,
    decreases ts.len(),
{
    assert(pathlen(g, s, s, 0));
    assert(reachable(g, s, s));
    if ts.last() != s {
        let i = choose|i: int| 0 <= i < ts.len() && ts[i] == s;
        assert(ts.drop_last()[i] == s);
        assert(ts.drop_last().contains(s));
        lemma_pairs_count_pos(g, s, ts.drop_last());
    }
}

/// Pools every pair distance that the per-source searches record: one
/// breadth-first search per vertex, each recorded distance added to a running
/// sum, each recorded pair counted. Returns `None` exactly when the pooled
/// sum or pair count exceeds 64 bits; otherwise the exact pair `(sum, count)`,
/// whose count is zero exactly for the empty graph.
#[verifier::loop_isolation(false)]
pub fn distance_totals(graph: &Graph) -> (r: Option<(u64, u64)>)
    requires
        graph.wf(),
    ensures
        totals_post(*graph, r),
        graph.verts().len() == 0 ==> r == Some((0u64, 0u64)),
        r is Some ==> ((r.unwrap().1 == 0) <==> graph.verts().len() == 0),
{
    let ghost g = *graph;
    let vertices = graph.get_vertices();
    let n = vertices.len();
    let mut sum_acc: u64 = 0;
    let mut count_acc: u64 = 0;
    let mut i: usize = 0;

    proof {
        assert(g.verts().take(0) =~= Seq::<usize>::empty());
    }

    while i < n
        invariant
            i <= n,
            n == g.verts().len(),
            sum_acc == totals_sum_over(g, g.verts().take(i as int)),
            count_acc == totals_count_over(g, g.verts().take(i as int)),
        decreases n - i,
    {
        let src = vertices[i];
        let dmap = bfs_distances(graph, src);
        let ghost base_sum = totals_sum_over(g, g.verts().take(i as int));
        let ghost base_count = totals_count_over(g, g.verts().take(i as int));
        let mut j: usize = 0;

        proof {
            assert(g.verts().take(0) =~= Seq::<usize>::empty());
        }

        while j < n
            invariant
                j <= n,
                sum_acc == base_sum + pairs_sum(g, src, g.verts().take(j as int)),
                count_acc == base_count + pairs_count(g, src, g.verts().take(j as int)),
            decreases n - j,
        {
            let t = vertices[j];
            proof {
                assert(g.verts().take(j as int + 1).drop_last() =~= g.verts().take(j as int));
                assert(g.verts().take(j as int + 1).last() == t);
            }
            match dmap.get(&t) {
                Some(d) => {
                    let dv: u64 = *d as u64;
                    proof {
                        assert(dmap@.contains_key(t) && dmap@[t] == *d);
                        assert(reachable(g, src, t));
                        assert(is_min_dist(g, src, t, *d as nat));
                        lemma_min_dist_unique(g, src, t, dist_of(g, src, t), *d as nat);
                        assert(dist_of(g, src, t) == dv as nat);
                    }
                    let new_sum = match sum_acc.checked_add(dv) {
                        Some(x) => x,
                        None => {
                            proof {
                                lemma_overflow_bound(g, src, i as int, j as int);
                            }
                            return None;
                        }
                    };
                    let new_count = match count_acc.checked_add(1) {
                        Some(x) => x,
                        None => {
                            proof {
                                lemma_overflow_bound(g, src, i as int, j as int);
                            }
                            return None;
                        }
                    };
                    sum_acc = new_sum;
                    count_acc = new_count;
                }
                None => {
                    proof {
                        assert(!dmap@.contains_key(t));
                        assert(!reachable(g, src, t));
                    }
                }
            }
            j = j + 1;
        }

        proof {
            assert(g.verts().take(n as int) =~= g.verts());
            assert(g.verts().take(i as int + 1).drop_last() =~= g.verts().take(i as int));
            assert(g.verts().take(i as int + 1).last() == src);
        }
        i = i + 1;
    }

    proof {
        assert(g.verts().take(n as int) =~= g.verts());
        if n > 0 {
            assert(g.verts()[n - 1] == g.verts().last());
            assert(g.verts().contains(g.verts().last()));
            lemma_pairs_count_pos(g, g.verts().last(), g.verts());
            assert(total_count(g) >= source_count(g, g.verts().last()));
        }
    }
    Some((sum_acc, count_acc))
}

/// Once a partial sum or count no longer fits in 64 bits, neither does the
/// whole: the totals dominate every partial accumulation.
proof fn lemma_overflow_bound(g: Graph, s: usize, i: int, j: int)
    requires
        0 <= i < g.verts().len(),
        0 <= j < g.verts().len(),
        g.verts()[i] == s,
    ensures
        total_sum(g) >= totals_sum_over(g, g.verts().take(i)) + pairs_sum(g, s, g.verts().take(j))
            + (if reachable(g, s, g.verts()[j]) {
                dist_of(g, s, g.verts()[j])
            } else {
                0nat
            }),
        total_count(g) >= totals_count_over(g, g.verts().take(i)) + pairs_count(
            g,
            s,
            g.verts().take(j),
        ) + (if reachable(g, s, g.verts()[j]) {
            1nat
        } else {
            0nat
        }),
{
    let vs = g.verts();
    assert(vs.take(j + 1).drop_last() =~= vs.take(j));
    assert(vs.take(j + 1).last() == vs[j]);
    lemma_pairs_prefix(g, s, vs, j + 1);
    assert(vs.take(i + 1).drop_last() =~= vs.take(i));
    assert(vs.take(i + 1).last() == s);
    lemma_totals_prefix(g, vs, i + 1);
}

/// Determinism of the aggregate: the postcondition of `distance_totals`
/// admits one result only, so repeated runs on an unmodified graph return
/// identical sums and counts.
pub proof fn lemma_totals_deterministic(g: Graph, r1: Option<(u64, u64)>, r2: Option<(u64, u64)>)
    requires
        totals_post(g, r1),
        totals_post(g, r2),
    ensures
        r1 == r2,
{
    match r1 {
        Some(t1) => {
            match r2 {
                Some(t2) => {
                    assert(t1.0 == t2.0 && t1.1 == t2.1);
                    assert(t1 == t2);
                }
                None => {
                    assert(total_sum(g) <= u64::MAX && total_count(g) <= u64::MAX);
                    assert(false);
                }
            }
        }
        None => {
            match r2 {
                Some(_) => {
                    assert(total_sum(g) <= u64::MAX && total_count(g) <= u64::MAX);
                    assert(false);
                }
                None => {}
            }
        }
    }
}

} // verus!
