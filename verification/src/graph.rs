//! The decoding graph: an immutable edge list with an optional CSR
//! adjacency.
//!
//! Nodes are dense `u32` indices; edges are unordered pairs.  The graph is
//! built once by a loader and then frozen; the decoder sweeps the edge list
//! in order, and that order is load-bearing for the tie-breaking of the
//! corrections it emits.

use vstd::prelude::*;

verus! {

use crate::QecError;

/// The neighbours of node `u` contributed by the first `k` edges, in edge
/// order; an edge lists its far endpoint once, a self-loop twice.
pub open spec fn nbrs_upto(edges: Seq<(u32, u32)>, u: int, k: int) -> Seq<u32>
    decreases k,
{
    if k <= 0 {
        Seq::empty()
    } else {
        let prev = nbrs_upto(edges, u, k - 1);
        let e = edges[k - 1];
        let with_fwd = if e.0 as int == u {
            prev.push(e.1)
        } else {
            prev
        };
        if e.1 as int == u {
            with_fwd.push(e.0)
        } else {
            with_fwd
        }
    }
}

/// The full neighbour list of node `u`.
pub open spec fn nbrs(edges: Seq<(u32, u32)>, u: int) -> Seq<u32> {
    nbrs_upto(edges, u, edges.len() as int)
}

/// Every edge endpoint lies below `n`.
pub open spec fn edges_in_range(edges: Seq<(u32, u32)>, n: int) -> bool {
    forall|e: int|
        0 <= e < edges.len() ==> (#[trigger] edges[e]).0 < n && edges[e].1 < n
}

/// Sum of the degrees that the first `k` edges give to the nodes below
/// `j`.
pub open spec fn degree_sum(edges: Seq<(u32, u32)>, k: int, j: int) -> int
    decreases j,
{
    if j <= 0 {
        0
    } else {
        degree_sum(edges, k, j - 1) + nbrs_upto(edges, j - 1, k).len()
    }
}

proof fn lemma_nbrs_monotone(edges: Seq<(u32, u32)>, u: int, k1: int, k2: int)
    requires
        0 <= k1 <= k2,
    ensures
        nbrs_upto(edges, u, k1).len() <= nbrs_upto(edges, u, k2).len(),
    decreases k2 - k1,
{
    if k1 < k2 {
        lemma_nbrs_monotone(edges, u, k1, k2 - 1);
    }
}

proof fn lemma_degree_sum_nonneg(edges: Seq<(u32, u32)>, k: int, j1: int, j2: int)
    requires
        0 <= j1 <= j2,
    ensures
        degree_sum(edges, k, j1) <= degree_sum(edges, k, j2),
    decreases j2 - j1,
{
    if j1 < j2 {
        lemma_degree_sum_nonneg(edges, k, j1, j2 - 1);
    }
}

proof fn lemma_degree_sum_step(edges: Seq<(u32, u32)>, k: int, j: int)
    requires
        1 <= k <= edges.len(),
        0 <= j,
    ensures
        degree_sum(edges, k, j) == degree_sum(edges, k - 1, j) + (if 0 <= (edges[k - 1].0 as int)
            < j {
            1int
        } else {
            0int
        }) + (if 0 <= (edges[k - 1].1 as int) < j {
            1int
        } else {
            0int
        }),
    decreases j,
{
    if j > 0 {
        lemma_degree_sum_step(edges, k, j - 1);
    }
}

proof fn lemma_degree_sum_zero(edges: Seq<(u32, u32)>, j: int)
    requires
        0 <= j,
    ensures
        degree_sum(edges, 0, j) == 0,
    decreases j,
{
    if j > 0 {
        lemma_degree_sum_zero(edges, j - 1);
    }
}

/// The handshake count: the first `k` edges contribute `2 k` degree units
/// to the nodes of the graph.
proof fn lemma_degree_sum_total(edges: Seq<(u32, u32)>, k: int, n: int)
    requires
        edges_in_range(edges, n),
        0 <= n,
        0 <= k <= edges.len(),
    ensures
        degree_sum(edges, k, n) == 2 * k,
    decreases k,
{
    if k > 0 {
        lemma_degree_sum_total(edges, k - 1, n);
        lemma_degree_sum_step(edges, k, n);
        assert(edges[k - 1].0 < n && edges[k - 1].1 < n);
    } else {
        lemma_degree_sum_zero(edges, n);
    }
}

proof fn lemma_nbrs_prefix(edges: Seq<(u32, u32)>, u: int, k1: int, k2: int)
    requires
        0 <= k1 <= k2,
    ensures
        nbrs_upto(edges, u, k1).len() <= nbrs_upto(edges, u, k2).len(),
        forall|q: int|
            0 <= q < nbrs_upto(edges, u, k1).len() ==> nbrs_upto(edges, u, k2)[q] == #[trigger] nbrs_upto(
                edges,
                u,
                k1,
            )[q],
    decreases k2 - k1,
{
    if k1 < k2 {
        lemma_nbrs_prefix(edges, u, k1, k2 - 1);
    }
}

/// Symmetry of the adjacency: for every edge `(u, v)` of the list, `v`
/// appears in the neighbour list of `u` and `u` in that of `v`.
pub proof fn lemma_edge_in_nbrs(edges: Seq<(u32, u32)>, e: int)
    requires
        0 <= e < edges.len(),
    ensures
        nbrs(edges, edges[e].0 as int).contains(edges[e].1),
        nbrs(edges, edges[e].1 as int).contains(edges[e].0),
{
    let a: int = edges[e].0 as int;
    let b: int = edges[e].1 as int;
    lemma_nbrs_prefix(edges, a, e + 1, edges.len() as int);
    lemma_nbrs_prefix(edges, b, e + 1, edges.len() as int);
    let la: int = nbrs_upto(edges, a, e).len() as int;
    assert(nbrs_upto(edges, a, e + 1)[la] == edges[e].1);
    assert(nbrs(edges, a)[la] == edges[e].1);
    let wb = nbrs_upto(edges, b, e + 1);
    assert(wb[wb.len() - 1] == edges[e].0);
    assert(nbrs(edges, b)[wb.len() - 1] == edges[e].0);
}

/// Decoding graph: flat edge list, cached node count, and (after
/// `build_adjacency`) a CSR adjacency.
pub struct DecodingGraph {
    /// Flat list of graph edges as `(u, v)` node pairs, in insertion order.
    pub fast_edges: Vec<(u32, u32)>,
    /// CSR offsets: `adj_offsets[i]..adj_offsets[i + 1]` indexes the
    /// neighbours of node `i` in `adj_targets`.
    pub adj_offsets: Vec<u32>,
    /// Packed neighbour list in CSR order.
    pub adj_targets: Vec<u32>,
    /// Capacity hint for node indices; guides pre-allocation only.
    pub num_nodes_capacity: usize,
    /// One past the highest node index seen by `add_edge`.
    pub max_node_id: usize,
}

impl DecodingGraph {
    /// Every edge endpoint lies below the cached node count.
    pub open spec fn wf(&self) -> bool {
        edges_in_range(self.fast_edges@, self.max_node_id as int)
    }

    /// Creates an empty graph.  The capacity argument is a pre-allocation
    /// hint and does not bound the graph.
    pub fn new(capacity: usize) -> (r: Self)
        ensures
            r.wf(),
            r.fast_edges@ == Seq::<(u32, u32)>::empty(),
            r.max_node_id == 0,
            r.num_nodes_capacity == capacity,
            r.adj_offsets@ == Seq::<u32>::empty(),
            r.adj_targets@ == Seq::<u32>::empty(),
    {
        DecodingGraph {
            fast_edges: Vec::new(),
            adj_offsets: Vec::new(),
            adj_targets: Vec::new(),
            num_nodes_capacity: capacity,
            max_node_id: 0,
        }
    }

    /// Raises the node-capacity hint to at least `n`.
    pub fn ensure_size(&mut self, n: usize)
        ensures
            final(self).num_nodes_capacity == (if n > old(self).num_nodes_capacity {
                n
            } else {
                old(self).num_nodes_capacity
            }),
            final(self).fast_edges@ == old(self).fast_edges@,
            final(self).max_node_id == old(self).max_node_id,
            final(self).adj_offsets@ == old(self).adj_offsets@,
            final(self).adj_targets@ == old(self).adj_targets@,
    {
        if n > self.num_nodes_capacity {
            self.num_nodes_capacity = n;
        }
    }

    /// Appends the undirected edge `(u, v)` and widens the node count to
    /// cover both endpoints.
    pub fn add_edge(&mut self, u: usize, v: usize) -> (r: Result<(), QecError>)
        requires
            old(self).wf(),
            u < u32::MAX,
            v < u32::MAX,
        ensures
            r == Ok::<(), QecError>(()),
            final(self).wf(),
            final(self).fast_edges@ == old(self).fast_edges@.push((u as u32, v as u32)),
            final(self).max_node_id as int == ({
                let mx: int = if u > v {
                    u as int
                } else {
                    v as int
                };
                if mx + 1 > old(self).max_node_id {
                    mx + 1
                } else {
                    old(self).max_node_id as int
                }
            }),
            final(self).adj_offsets@ == old(self).adj_offsets@,
            final(self).adj_targets@ == old(self).adj_targets@,
    {
        let max_idx = if u > v {
            u
        } else {
            v
        };
        self.ensure_size(max_idx + 1);
        if max_idx >= self.max_node_id {
            self.max_node_id = max_idx + 1;
        }
        self.fast_edges.push((u as u32, v as u32));
        Ok(())
    }

    /// The number of nodes: one past the highest index seen.
    pub fn num_nodes(&self) -> (r: usize)
        ensures
            r == self.max_node_id,
    {
        self.max_node_id
    }

    /// The number of edges.
    pub fn num_edges(&self) -> (r: usize)
        ensures
            r == self.fast_edges@.len(),
    {
        self.fast_edges.len()
    }

    /// The CSR adjacency is in place and exact: offsets are the running
    /// degree sums, the target array holds `2 |E|` entries, and the slice
    /// between consecutive offsets of node `u` is exactly its neighbour
    /// list.  In particular, for every edge `(u, v)`, `v` appears among
    /// the neighbours of `u` and `u` among those of `v`.
    pub open spec fn adjacency_built(&self) -> bool {
        let n: int = self.max_node_id as int;
        let edges = self.fast_edges@;
        &&& self.adj_offsets@.len() == n + 1
        &&& self.adj_targets@.len() == 2 * edges.len()
        &&& forall|j: int|
            0 <= j <= n ==> (#[trigger] self.adj_offsets@[j]) as int == degree_sum(
                edges,
                edges.len() as int,
                j,
            )
        &&& forall|u: int|
            0 <= u < n ==> self.adj_targets@.subrange(
                (#[trigger] self.adj_offsets@[u]) as int,
                self.adj_offsets@[u + 1] as int,
            ) == nbrs(edges, u)
    }

    /// Builds the CSR adjacency from the current edge list: count the
    /// degrees, prefix-sum them into offsets, and place each endpoint.
    /// Must be called again after further `add_edge` calls.
    pub fn build_adjacency(&mut self)
        requires
            old(self).wf(),
            2 * old(self).fast_edges@.len() <= u32::MAX,
        ensures
            final(self).wf(),
            final(self).fast_edges@ == old(self).fast_edges@,
            final(self).max_node_id == old(self).max_node_id,
            final(self).num_nodes_capacity == old(self).num_nodes_capacity,
            final(self).adjacency_built(),
    {
        let n = self.max_node_id;
        let e_len = self.fast_edges.len();
        let ghost edges = self.fast_edges@;

        let mut degree: Vec<u32> = Vec::new();
        let mut z: usize = 0;
        while z < n
            invariant
                z <= n,
                degree@.len() == z,
                forall|u: int| 0 <= u < z ==> (#[trigger] degree@[u]) == 0u32,
            decreases n - z,
        {
            degree.push(0);
            z = z + 1;
        }
        let mut k: usize = 0;
        while k < e_len
            invariant
                k <= e_len,
                e_len == edges.len(),
                edges == self.fast_edges@,
                n == self.max_node_id,
                edges_in_range(edges, n as int),
                2 * e_len <= u32::MAX,
                degree@.len() == n,
                forall|u: int|
                    0 <= u < n ==> (#[trigger] degree@[u]) as int == nbrs_upto(
                        edges,
                        u,
                        k as int,
                    ).len(),
                forall|u: int| 0 <= u < n ==> (#[trigger] degree@[u]) as int <= 2 * k,
            decreases e_len - k,
        {
            let ed = *vstd::slice::slice_index_get(self.fast_edges.as_slice(), k);
            let a = ed.0 as usize;
            let b = ed.1 as usize;
            let da = *vstd::slice::slice_index_get(degree.as_slice(), a);
            degree[a] = da + 1;
            let db = *vstd::slice::slice_index_get(degree.as_slice(), b);
            degree[b] = db + 1;
            k = k + 1;
        }

        let mut offsets: Vec<u32> = Vec::new();
        offsets.push(0);
        let mut i: usize = 0;
        while i < n
            invariant
                i <= n,
                e_len == edges.len(),
                edges == self.fast_edges@,
                n == self.max_node_id,
                edges_in_range(edges, n as int),
                2 * e_len <= u32::MAX,
                degree@.len() == n,
                forall|u: int|
                    0 <= u < n ==> (#[trigger] degree@[u]) as int == nbrs_upto(
                        edges,
                        u,
                        e_len as int,
                    ).len(),
                offsets@.len() == i + 1,
                forall|j: int|
                    0 <= j <= i ==> (#[trigger] offsets@[j]) as int == degree_sum(
                        edges,
                        e_len as int,
                        j,
                    ),
            decreases n - i,
        {
            proof {
                lemma_degree_sum_nonneg(edges, e_len as int, i as int + 1, n as int);
                lemma_degree_sum_total(edges, e_len as int, n as int);
            }
            let prev = *vstd::slice::slice_index_get(offsets.as_slice(), i);
            let d = *vstd::slice::slice_index_get(degree.as_slice(), i);
            offsets.push(prev + d);
            i = i + 1;
        }
        proof {
            lemma_degree_sum_total(edges, e_len as int, n as int);
        }
        let total = (*vstd::slice::slice_index_get(offsets.as_slice(), n)) as usize;

        let mut targets: Vec<u32> = Vec::new();
        let mut z2: usize = 0;
        while z2 < total
            invariant
                z2 <= total,
                targets@.len() == z2,
            decreases total - z2,
        {
            targets.push(0);
            z2 = z2 + 1;
        }
        let mut pos: Vec<u32> = Vec::new();
        let mut z3: usize = 0;
        while z3 < n
            invariant
                z3 <= n,
                pos@.len() == z3,
                offsets@.len() == n + 1,
                forall|j: int| 0 <= j < z3 ==> (#[trigger] pos@[j]) == offsets@[j],
            decreases n - z3,
        {
            pos.push(*vstd::slice::slice_index_get(offsets.as_slice(), z3));
            z3 = z3 + 1;
        }

        let mut k2: usize = 0;
        proof {
            assert forall|u: int| 0 <= u < n implies targets@.subrange(
                (#[trigger] offsets@[u]) as int,
                pos@[u] as int,
            ) == nbrs_upto(edges, u, 0) by {
                lemma_degree_sum_nonneg(edges, e_len as int, 0, u);
                lemma_degree_sum_nonneg(edges, e_len as int, u, n as int);
                lemma_degree_sum_total(edges, e_len as int, n as int);
                assert(targets@.subrange(offsets@[u] as int, pos@[u] as int) =~= nbrs_upto(
                    edges,
                    u,
                    0,
                ));
            }
        }
        while k2 < e_len
            invariant
                k2 <= e_len,
                e_len == edges.len(),
                edges == self.fast_edges@,
                n == self.max_node_id,
                edges_in_range(edges, n as int),
                2 * e_len <= u32::MAX,
                total == 2 * e_len,
                offsets@.len() == n + 1,
                forall|j: int|
                    0 <= j <= n ==> (#[trigger] offsets@[j]) as int == degree_sum(
                        edges,
                        e_len as int,
                        j,
                    ),
                pos@.len() == n,
                targets@.len() == total,
                forall|u: int|
                    0 <= u < n ==> (#[trigger] pos@[u]) as int == offsets@[u] as int + nbrs_upto(
                        edges,
                        u,
                        k2 as int,
                    ).len(),
                forall|u: int|
                    0 <= u < n ==> targets@.subrange(
                        (#[trigger] offsets@[u]) as int,
                        pos@[u] as int,
                    ) == nbrs_upto(edges, u, k2 as int),
            decreases e_len - k2,
        {
            let ed = *vstd::slice::slice_index_get(self.fast_edges.as_slice(), k2);
            let a = ed.0 as usize;
            let b = ed.1 as usize;
            let ghost kk: int = k2 as int;
            let ghost mid = |u: int|
                if edges[kk].0 as int == u {
                    nbrs_upto(edges, u, kk).push(edges[kk].1)
                } else {
                    nbrs_upto(edges, u, kk)
                };
            proof {
                assert forall|u: int| 0 <= u < n implies nbrs_upto(edges, u, kk + 1).len()
                    <= nbrs_upto(edges, u, e_len as int).len() by {
                    lemma_nbrs_monotone(edges, u, kk + 1, e_len as int);
                }
                assert forall|j1: int, j2: int| 0 <= j1 <= j2 <= n implies degree_sum(
                    edges,
                    e_len as int,
                    j1,
                ) <= degree_sum(edges, e_len as int, j2) by {
                    lemma_degree_sum_nonneg(edges, e_len as int, j1, j2);
                }
            }
            let ghost targets0 = targets@;
            let ghost pos0 = pos@;
            let pa = *vstd::slice::slice_index_get(pos.as_slice(), a);
            proof {
                assert(mid(a as int).len() <= nbrs_upto(edges, a as int, kk + 1).len());
                assert((pa as int) < offsets@[(a as int) + 1]);
                assert(offsets@[(a as int) + 1] as int <= offsets@[n as int] as int);
                lemma_degree_sum_total(edges, e_len as int, n as int);
            }
            targets[pa as usize] = ed.1;
            pos[a] = pa + 1;
            proof {
                assert forall|u: int| 0 <= u < n implies (#[trigger] pos@[u]) as int
                    == offsets@[u] as int + mid(u).len() && targets@.subrange(
                    offsets@[u] as int,
                    pos@[u] as int,
                ) == mid(u) by {
                    if u == a as int {
                        assert(targets@.subrange(offsets@[u] as int, pos@[u] as int) =~= mid(u));
                    } else {
                        assert(pos0[u] as int <= offsets@[u + 1] as int);
                        if u < a as int {
                            assert(offsets@[u + 1] as int <= offsets@[a as int] as int);
                        } else {
                            assert(offsets@[(a as int) + 1] as int <= offsets@[u] as int);
                        }
                        assert(targets@.subrange(offsets@[u] as int, pos@[u] as int)
                            =~= targets0.subrange(offsets@[u] as int, pos0[u] as int));
                    }
                }
            }
            let ghost targets1 = targets@;
            let ghost pos1 = pos@;
            let pb = *vstd::slice::slice_index_get(pos.as_slice(), b);
            proof {
                assert(nbrs_upto(edges, b as int, kk + 1) == mid(b as int).push(edges[kk].0));
                assert((pb as int) < offsets@[(b as int) + 1]);
                assert(offsets@[(b as int) + 1] as int <= offsets@[n as int] as int);
                lemma_degree_sum_total(edges, e_len as int, n as int);
            }
            targets[pb as usize] = ed.0;
            pos[b] = pb + 1;
            proof {
                assert forall|u: int| 0 <= u < n implies (#[trigger] pos@[u]) as int
                    == offsets@[u] as int + nbrs_upto(edges, u, kk + 1).len()
                    && targets@.subrange(offsets@[u] as int, pos@[u] as int) == nbrs_upto(
                    edges,
                    u,
                    kk + 1,
                ) by {
                    assert(nbrs_upto(edges, u, kk + 1) == (if edges[kk].1 as int == u {
                        mid(u).push(edges[kk].0)
                    } else {
                        mid(u)
                    }));
                    if u == b as int {
                        assert(targets@.subrange(offsets@[u] as int, pos@[u] as int)
                            =~= nbrs_upto(edges, u, kk + 1));
                    } else {
                        assert(nbrs_upto(edges, u, kk + 1) =~= mid(u));
                        assert(pos1[u] as int <= offsets@[u + 1] as int);
                        if u < b as int {
                            assert(offsets@[u + 1] as int <= offsets@[b as int] as int);
                        } else {
                            assert(offsets@[(b as int) + 1] as int <= offsets@[u] as int);
                        }
                        assert(targets@.subrange(offsets@[u] as int, pos@[u] as int)
                            =~= targets1.subrange(offsets@[u] as int, pos1[u] as int));
                    }
                }
            }
            k2 = k2 + 1;
        }

        self.adj_offsets = offsets;
        self.adj_targets = targets;
        proof {
            assert forall|u: int| 0 <= u < n implies self.adj_targets@.subrange(
                (#[trigger] self.adj_offsets@[u]) as int,
                self.adj_offsets@[u + 1] as int,
            ) == nbrs(self.fast_edges@, u) by {
                assert(offsets@[u + 1] as int == degree_sum(edges, e_len as int, u + 1));
                assert(pos@[u] as int == offsets@[u + 1] as int);
            }
        }
    }

    /// The neighbour indices of node `i`, as filled in by
    /// `build_adjacency`; empty when the adjacency has not been built or
    /// `i` lies outside the graph.
    pub fn neighbors(&self, i: usize) -> (r: &[u32])
        requires
            self.wf(),
            self.adjacency_built() || self.adj_offsets@.len() == 0,
        ensures
            self.adjacency_built() && i < self.max_node_id ==> r@ == nbrs(
                self.fast_edges@,
                i as int,
            ),
            self.adj_offsets@.len() <= i + 1 ==> r@ == Seq::<u32>::empty(),
    {
        if self.adj_offsets.len() == 0 {
            return vstd::slice::slice_subrange(self.adj_targets.as_slice(), 0, 0);
        }
        if i >= self.adj_offsets.len() - 1 {
            return vstd::slice::slice_subrange(self.adj_targets.as_slice(), 0, 0);
        }
        proof {
            lemma_degree_sum_nonneg(self.fast_edges@, self.fast_edges@.len() as int, i as int, i as int + 1);
            lemma_degree_sum_nonneg(
                self.fast_edges@,
                self.fast_edges@.len() as int,
                i as int + 1,
                self.max_node_id as int,
            );
            lemma_degree_sum_total(
                self.fast_edges@,
                self.fast_edges@.len() as int,
                self.max_node_id as int,
            );
        }
        let start = (*vstd::slice::slice_index_get(self.adj_offsets.as_slice(), i)) as usize;
        let end = (*vstd::slice::slice_index_get(self.adj_offsets.as_slice(), i + 1)) as usize;
        vstd::slice::slice_subrange(self.adj_targets.as_slice(), start, end)
    }
}

} // verus!
