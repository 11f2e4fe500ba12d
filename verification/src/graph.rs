use vstd::prelude::*;
use std::collections::HashMap;

verus! {

broadcast use vstd::std_specs::hash::group_hash_axioms;

/// A directed graph: the vertices in first-seen order, and for each vertex the
/// ordered list of its out-neighbors. Self-loops and parallel edges are kept
/// verbatim; the structure is total over all `usize` identifiers.
pub struct Graph {
    vertices: Vec<usize>,
    adjacency_list: HashMap<usize, Vec<usize>>,
}

/// `vs` with `v` appended, unless `v` is already present: the vertex sequence
/// that one idempotent insertion leaves behind.
pub open spec fn add_seen(vs: Seq<usize>, v: usize) -> Seq<usize> {
    if vs.contains(v) {
        vs
    } else {
        vs.push(v)
    }
}

/// How one `add_vertex(v)` call relates the graph before (`pre`) to the graph
/// after (`post`): `v` is appended if absent, and no adjacency list changes.
pub open spec fn add_vertex_spec(pre: Graph, post: Graph, v: usize) -> bool {
    &&& post.verts() == add_seen(pre.verts(), v)
    &&& forall|u: usize| #[trigger] post.adj(u) == pre.adj(u)
}

/// How one `add_edge(from, to)` call relates the graph before (`pre`) to the
/// graph after (`post`): both endpoints are inserted as vertices if absent,
/// and `to` is appended to the adjacency list of `from`.
pub open spec fn add_edge_spec(pre: Graph, post: Graph, from: usize, to: usize) -> bool {
    &&& post.verts() == add_seen(add_seen(pre.verts(), from), to)
    &&& post.adj(from) == pre.adj(from).push(to)
    &&& forall|u: usize| u != from ==> #[trigger] post.adj(u) == pre.adj(u)
}

/// Membership after one idempotent insertion: exactly the old members and `v`.
pub proof fn lemma_add_seen_contains(vs: Seq<usize>, v: usize, x: usize)
    ensures
        add_seen(vs, v).contains(x) <==> (vs.contains(x) || x == v),
{
    if !vs.contains(v) {
        let p = vs.push(v);
        if vs.contains(x) {
            let i = choose|i: int| 0 <= i < vs.len() && vs[i] == x;
            assert(p[i] == x);
        }
        if x == v {
            assert(p[vs.len() as int] == v);
        }
        if p.contains(x) {
            let i = choose|i: int| 0 <= i < p.len() && p[i] == x;
            if i < vs.len() {
                assert(vs[i] == x);
            }
        }
    }
}

/// Linear membership test on a vector of identifiers.
fn seq_has(v: &Vec<usize>, x: usize) -> (b: bool)
    ensures
        b == v@.contains(x),
{
    let mut i: usize = 0;
    while i < v.len()
        invariant
            i <= v.len(),
            forall|k: int| 0 <= k < i ==> v@[k] != x,
        decreases v.len() - i,
    {
        if v[i] == x {
            return true;
        }
        i += 1;
    }
    false
}

impl Graph {
    /// The stored vertices, in first-seen order.
    pub closed spec fn verts(self) -> Seq<usize> {
        self.vertices@
    }

    /// The out-neighbors of `v` in insertion order; empty when `v` is unknown.
    pub closed spec fn adj(self, v: usize) -> Seq<usize> {
        if self.adjacency_list@.contains_key(v) {
            self.adjacency_list@[v]@
        } else {
            Seq::empty()
        }
    }

    pub open spec fn has_vertex(self, v: usize) -> bool {
        self.verts().contains(v)
    }

    /// Internal invariant: no duplicate vertices, the adjacency map keys are
    /// exactly the vertices, and every recorded neighbor is itself a vertex.
    pub closed spec fn wf(self) -> bool {
        &&& forall|i: int, j: int|
            0 <= i < j < self.vertices@.len() ==> self.vertices@[i] != self.vertices@[j]
        &&& forall|v: usize| #[trigger] self.adjacency_list@.contains_key(v) <==> self.vertices@.contains(v)
        &&& forall|v: usize, k: int|
            self.adjacency_list@.contains_key(v) && 0 <= k < self.adjacency_list@[v]@.len()
                ==> self.vertices@.contains(#[trigger] self.adjacency_list@[v]@[k])
    }

    /// What well-formedness yields about the public views: distinct vertices,
    /// every neighbor a vertex, and unknown vertices with empty neighbor lists.
    pub proof fn lemma_wf_facts(self)
        requires
            self.wf(),
        ensures
            forall|i: int, j: int|
                0 <= i < j < self.verts().len() ==> self.verts()[i] != self.verts()[j],
            forall|v: usize, k: int|
                0 <= k < self.adj(v).len() ==> self.verts().contains(#[trigger] self.adj(v)[k]),
            forall|v: usize| !self.verts().contains(v) ==> #[trigger] self.adj(v) == Seq::<usize>::empty(),
    {
        assert forall|v: usize, k: int| 0 <= k < self.adj(v).len()
            implies self.verts().contains(#[trigger] self.adj(v)[k]) by {
            assert(self.adjacency_list@.contains_key(v));
        }
    }

    /// An empty graph.
    pub fn new() -> (g: Graph)
        ensures
            g.wf(),
            g.verts() == Seq::<usize>::empty(),
            forall|v: usize| #[trigger] g.adj(v) == Seq::<usize>::empty(),
    {
        let g = Graph { vertices: Vec::new(), adjacency_list: HashMap::new() };
        proof {
            assert(g.verts() =~= Seq::<usize>::empty());
            assert forall|v: usize| #[trigger] g.adj(v) == Seq::<usize>::empty() by {
                assert(!g.adjacency_list@.contains_key(v));
            }
        }
        g
    }

    /// Inserts `v` if absent, with an empty adjacency list; a no-op when `v`
    /// is already present.
    pub fn add_vertex(&mut self, vertex: usize)
        requires
            old(self).wf(),
        ensures
            final(self).wf(),
            add_vertex_spec(*old(self), *final(self), vertex),
            final(self).has_vertex(vertex),
    {
        if !seq_has(&self.vertices, vertex) {
            self.vertices.push(vertex);
            let empty: Vec<usize> = Vec::new();
            proof {
                assert(empty@ =~= Seq::<usize>::empty());
            }
            self.adjacency_list.insert(vertex, empty);
            proof {
                assert(self.verts() =~= add_seen(old(self).verts(), vertex));
                assert forall|u: usize| #[trigger] self.adj(u) == old(self).adj(u) by {
                    if u != vertex {
                        assert(self.adjacency_list@.contains_key(u)
                            == old(self).adjacency_list@.contains_key(u));
                    } else {
                        assert(!old(self).adjacency_list@.contains_key(u));
                        assert(self.adj(u) =~= Seq::<usize>::empty());
                    }
                }
                assert forall|i: int, j: int|
                    0 <= i < j < self.vertices@.len()
                    implies self.vertices@[i] != self.vertices@[j] by {
                    if j == self.vertices@.len() - 1 {
                        assert(!old(self).vertices@.contains(vertex));
                        assert(old(self).vertices@[i] == self.vertices@[i]);
                    }
                }
                assert(self.vertices@[self.vertices@.len() - 1] == vertex);
                assert forall|v: usize| #[trigger] self.adjacency_list@.contains_key(v)
                    <==> self.vertices@.contains(v) by {
                    lemma_add_seen_contains(old(self).vertices@, vertex, v);
                }
                assert forall|v: usize, k: int|
                    self.adjacency_list@.contains_key(v) && 0 <= k < self.adjacency_list@[v]@.len()
                    implies self.vertices@.contains(#[trigger] self.adjacency_list@[v]@[k]) by {
                    if v != vertex {
                        assert(old(self).adjacency_list@.contains_key(v));
                        assert(old(self).vertices@.contains(old(self).adjacency_list@[v]@[k]));
                        lemma_add_seen_contains(
                            old(self).vertices@,
                            vertex,
                            old(self).adjacency_list@[v]@[k],
                        );
                    }
                }
            }
        }
    }

    /// Ensures both endpoints exist, then appends `to` to the adjacency list
    /// of `from`. Directed: the reverse edge is not added. Always succeeds.
    pub fn add_edge(&mut self, from: usize, to: usize)
        requires
            old(self).wf(),
        ensures
            final(self).wf(),
            add_edge_spec(*old(self), *final(self), from, to),
            final(self).has_vertex(from),
            final(self).has_vertex(to),
    {
        self.add_vertex(from);
        let ghost g1 = *self;
        self.add_vertex(to);
        let ghost mid = *self;
        proof {
            lemma_add_seen_contains(g1.verts(), to, from);
            assert(mid.has_vertex(from));
            assert(mid.adjacency_list@.contains_key(from));
        }
        let mut list: Vec<usize> = match self.adjacency_list.remove(&from) {
            Some(l) => l,
            None => Vec::new(),
        };
        proof {
            assert(list@ == mid.adj(from));
        }
        list.push(to);
        self.adjacency_list.insert(from, list);
        proof {
            assert(self.adjacency_list@ =~= mid.adjacency_list@.insert(from, list));
            assert(self.adj(from) == old(self).adj(from).push(to));
            assert forall|u: usize| u != from implies #[trigger] self.adj(u) == mid.adj(u) by {
                assert(self.adjacency_list@.contains_key(u) == mid.adjacency_list@.contains_key(u));
            }
            assert(self.verts() == add_seen(add_seen(old(self).verts(), from), to));
            assert forall|v: usize| #[trigger] self.adjacency_list@.contains_key(v)
                <==> self.vertices@.contains(v) by {
                assert(self.adjacency_list@.contains_key(v) == mid.adjacency_list@.contains_key(v));
            }
            assert forall|v: usize, k: int|
                self.adjacency_list@.contains_key(v) && 0 <= k < self.adjacency_list@[v]@.len()
                implies self.vertices@.contains(#[trigger] self.adjacency_list@[v]@[k]) by {
                if v == from {
                    if k < self.adjacency_list@[v]@.len() - 1 {
                        assert(self.adjacency_list@[v]@[k] == mid.adjacency_list@[v]@[k]);
                        assert(mid.vertices@.contains(mid.adjacency_list@[v]@[k]));
                    } else {
                        assert(self.adjacency_list@[v]@[k] == to);
                        assert(mid.has_vertex(to));
                    }
                } else {
                    assert(mid.adjacency_list@.contains_key(v));
                    assert(mid.vertices@.contains(mid.adjacency_list@[v]@[k]));
                }
            }
        }
    }

    /// The number of distinct vertices stored.
    pub fn vertex_count(&self) -> (n: usize)
        ensures
            n == self.verts().len(),
    {
        self.vertices.len()
    }

    /// All vertices, in first-seen order.
    pub fn get_vertices(&self) -> (r: &Vec<usize>)
        ensures
            r@ == self.verts(),
    {
        &self.vertices
    }

    /// The out-neighbors of `vertex` in insertion order, or an empty vector
    /// when `vertex` is unknown: the two cases are indistinguishable here.
    pub fn get_neighbors(&self, vertex: usize) -> (r: Vec<usize>)
        ensures
            r@ == self.adj(vertex),
    {
        let mut result: Vec<usize> = Vec::new();
        match self.adjacency_list.get(&vertex) {
            Some(neighbors) => {
                let mut i: usize = 0;
                while i < neighbors.len()
                    invariant
                        i <= neighbors.len(),
                        result@ == neighbors@.take(i as int),
                    decreases neighbors.len() - i,
                {
                    result.push(neighbors[i]);
                    i += 1;
                    proof {
                        assert(result@ =~= neighbors@.take(i as int));
                    }
                }
                proof {
                    assert(neighbors@.take(neighbors@.len() as int) =~= neighbors@);
                }
            }
            None => {
                proof {
                    assert(result@ =~= Seq::<usize>::empty());
                }
            }
        }
        result
    }
}

/// Idempotent vertex insertion: a second `add_vertex` of the same vertex
/// changes neither the vertex sequence nor any adjacency list, so the vertex
/// count and every neighbor list stay as they were.
pub proof fn lemma_add_vertex_idempotent(g0: Graph, g1: Graph, g2: Graph, v: usize)
    requires
        add_vertex_spec(g0, g1, v),
        add_vertex_spec(g1, g2, v),
    ensures
        g2.verts() == g1.verts(),
        forall|u: usize| #[trigger] g2.adj(u) == g1.adj(u),
{
    lemma_add_seen_contains(g0.verts(), v, v);
}

/// Directedness: starting from a graph with no edges at all, one
/// `add_edge(a, b)` makes `b` an out-neighbor of `a`, while the neighbors of
/// `b` stay empty unless `a == b`.
pub proof fn lemma_directed(pre: Graph, post: Graph, a: usize, b: usize)
    requires
        forall|v: usize| #[trigger] pre.adj(v) == Seq::<usize>::empty(),
        add_edge_spec(pre, post, a, b),
    ensures
        post.adj(a).contains(b),
        a != b ==> !post.adj(b).contains(a),
{
    assert(post.adj(a) == pre.adj(a).push(b));
    assert(post.adj(a)[post.adj(a).len() - 1] == b);
    if a != b {
        assert(post.adj(b) == pre.adj(b));
    }
}

} // verus!
