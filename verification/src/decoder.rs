//! The union-find decoder.
//!
//! A decoding job injects the fired detectors into a freshly reset
//! union-find as parity toggles, then sweeps the edge list to a fixpoint:
//! any edge whose endpoints lie in distinct clusters, at least one of them
//! odd, merges the two and emits the edge as a correction.  The whole
//! computation is specified by the functional model below
//! ([`decoder_solve`]): for a given edge list, syndrome list and node count
//! the output is one mathematical value, which makes the decoder
//! deterministic by contract.

use vstd::prelude::*;

verus! {

use crate::QecError;
use crate::dsu::{
    DsuModel, UnionFind, model_identity, model_num_roots, model_toggle, model_union,
    lemma_model_union_wf, lemma_model_num_roots_bounds, lemma_model_num_roots_pos, model_wf,
};
use crate::graph::{DecodingGraph, edges_in_range};
use crate::static_vec::StaticVec;

/// Mathematical state of one decoding job: the union-find model plus the
/// per-node touched flags.
#[verifier::ext_equal]
pub struct DecoderModel {
    pub dsu: DsuModel,
    pub touched: Seq<bool>,
}

/// Model state at the start of a job over `n` nodes.
pub open spec fn decoder_init(n: int) -> DecoderModel
    recommends
        n >= 0,
{
    DecoderModel { dsu: model_identity(n), touched: Seq::new(n as nat, |k: int| false) }
}

pub open spec fn decoder_model_wf(m: DecoderModel) -> bool {
    &&& model_wf(m.dsu)
    &&& m.touched.len() == m.dsu.roots.len()
}

/// Injecting the first `k` syndrome indices: each in-range detector
/// toggles its cluster parity and marks itself touched; out-of-range
/// detectors are dropped.
pub open spec fn decoder_inject(m: DecoderModel, syndromes: Seq<usize>, k: int) -> DecoderModel
    decreases k,
{
    if k <= 0 {
        m
    } else {
        let m1 = decoder_inject(m, syndromes, k - 1);
        let d: int = syndromes[k - 1] as int;
        if d < m1.dsu.roots.len() {
            DecoderModel { dsu: model_toggle(m1.dsu, d), touched: m1.touched.update(d, true) }
        } else {
            m1
        }
    }
}

/// One edge of the sweep: skipped when neither endpoint is touched, when
/// both lie in one cluster, or when both clusters are even; otherwise the
/// two clusters merge and the edge is emitted as a correction.
pub open spec fn decoder_edge_step(m: DecoderModel, u: int, v: int) -> (
    DecoderModel,
    Option<(usize, usize)>,
)
    recommends
        decoder_model_wf(m),
        0 <= u < m.dsu.roots.len(),
        0 <= v < m.dsu.roots.len(),
{
    if !m.touched[u] && !m.touched[v] {
        (m, None)
    } else {
        let ru: int = m.dsu.roots[u];
        let rv: int = m.dsu.roots[v];
        if ru == rv {
            (m, None)
        } else if m.dsu.par[ru] || m.dsu.par[rv] {
            (
                DecoderModel {
                    dsu: model_union(m.dsu, u, v),
                    touched: m.touched.update(u, true).update(v, true),
                },
                Some((u as usize, v as usize)),
            )
        } else {
            (m, None)
        }
    }
}

/// One pass over the first `k` edges, in order, with the corrections it
/// emits.
pub open spec fn decoder_sweep(m: DecoderModel, edges: Seq<(u32, u32)>, k: int) -> (
    DecoderModel,
    Seq<(usize, usize)>,
)
    decreases k,
{
    if k <= 0 {
        (m, Seq::empty())
    } else {
        let prev = decoder_sweep(m, edges, k - 1);
        let step = decoder_edge_step(prev.0, edges[k - 1].0 as int, edges[k - 1].1 as int);
        (
            step.0,
            match step.1 {
                Some(c) => prev.1.push(c),
                None => prev.1,
            },
        )
    }
}

proof fn lemma_edge_step(m: DecoderModel, u: int, v: int)
    requires
        decoder_model_wf(m),
        0 <= u < m.dsu.roots.len(),
        0 <= v < m.dsu.roots.len(),
    ensures
        decoder_model_wf(decoder_edge_step(m, u, v).0),
        decoder_edge_step(m, u, v).0.dsu.roots.len() == m.dsu.roots.len(),
        match decoder_edge_step(m, u, v).1 {
            None => decoder_edge_step(m, u, v).0 == m,
            Some(_) => model_num_roots(decoder_edge_step(m, u, v).0.dsu) == model_num_roots(m.dsu)
                - 1,
        },
{
    lemma_model_union_wf(m.dsu, u, v);
}

proof fn lemma_sweep(m: DecoderModel, edges: Seq<(u32, u32)>, k: int)
    requires
        decoder_model_wf(m),
        edges_in_range(edges, m.dsu.roots.len() as int),
        0 <= k <= edges.len(),
    ensures
        decoder_model_wf(decoder_sweep(m, edges, k).0),
        decoder_sweep(m, edges, k).0.dsu.roots.len() == m.dsu.roots.len(),
        model_num_roots(decoder_sweep(m, edges, k).0.dsu) == model_num_roots(m.dsu)
            - decoder_sweep(m, edges, k).1.len(),
        decoder_sweep(m, edges, k).1.len() == 0 ==> decoder_sweep(m, edges, k).0 == m,
    decreases k,
{
    if k > 0 {
        lemma_sweep(m, edges, k - 1);
        let prev = decoder_sweep(m, edges, k - 1);
        lemma_edge_step(prev.0, edges[k - 1].0 as int, edges[k - 1].1 as int);
    }
}

/// The corrections of a shorter sweep prefix are a prefix of those of a
/// longer one.
proof fn lemma_sweep_prefix(m: DecoderModel, edges: Seq<(u32, u32)>, k1: int, k2: int)
    requires
        0 <= k1 <= k2,
    ensures
        decoder_sweep(m, edges, k1).1.len() <= decoder_sweep(m, edges, k2).1.len(),
        decoder_sweep(m, edges, k2).1.take(decoder_sweep(m, edges, k1).1.len() as int)
            == decoder_sweep(m, edges, k1).1,
    decreases k2 - k1,
{
    if k1 == k2 {
        assert(decoder_sweep(m, edges, k2).1.take(decoder_sweep(m, edges, k1).1.len() as int)
            =~= decoder_sweep(m, edges, k1).1);
    } else {
        lemma_sweep_prefix(m, edges, k1, k2 - 1);
        let prev = decoder_sweep(m, edges, k2 - 1);
        let step = decoder_edge_step(prev.0, edges[k2 - 1].0 as int, edges[k2 - 1].1 as int);
        match step.1 {
            Some(c) => {
                assert(decoder_sweep(m, edges, k2).1 == prev.1.push(c));
                assert(decoder_sweep(m, edges, k2).1.take(
                    decoder_sweep(m, edges, k1).1.len() as int,
                ) =~= decoder_sweep(m, edges, k1).1);
            },
            None => {},
        }
    }
}

/// Sweeping to a fixpoint: passes repeat while a pass emitted anything.
pub open spec fn decoder_rounds(m: DecoderModel, edges: Seq<(u32, u32)>) -> (
    DecoderModel,
    Seq<(usize, usize)>,
)
    decreases model_num_roots(m.dsu)
        when decoder_model_wf(m) && edges_in_range(edges, m.dsu.roots.len() as int)
        via decoder_rounds_decreases
{
    let s = decoder_sweep(m, edges, edges.len() as int);
    if s.1.len() == 0 {
        s
    } else {
        let rest = decoder_rounds(s.0, edges);
        (rest.0, s.1 + rest.1)
    }
}

#[via_fn]
proof fn decoder_rounds_decreases(m: DecoderModel, edges: Seq<(u32, u32)>) {
    lemma_sweep(m, edges, edges.len() as int);
    lemma_model_num_roots_bounds(
        decoder_sweep(m, edges, edges.len() as int).0.dsu.roots,
        decoder_sweep(m, edges, edges.len() as int).0.dsu.roots.len() as int,
    );
}

proof fn lemma_rounds(m: DecoderModel, edges: Seq<(u32, u32)>)
    requires
        decoder_model_wf(m),
        edges_in_range(edges, m.dsu.roots.len() as int),
    ensures
        decoder_model_wf(decoder_rounds(m, edges).0),
        decoder_rounds(m, edges).0.dsu.roots.len() == m.dsu.roots.len(),
        model_num_roots(decoder_rounds(m, edges).0.dsu) == model_num_roots(m.dsu)
            - decoder_rounds(m, edges).1.len(),
    decreases model_num_roots(m.dsu),
{
    lemma_sweep(m, edges, edges.len() as int);
    let s = decoder_sweep(m, edges, edges.len() as int);
    if s.1.len() != 0 {
        lemma_model_num_roots_bounds(s.0.dsu.roots, s.0.dsu.roots.len() as int);
        lemma_rounds(s.0, edges);
    }
}

/// The full decoding job as one mathematical function of the edge list,
/// the syndrome list and the node count.
pub open spec fn decoder_solve(edges: Seq<(u32, u32)>, syndromes: Seq<usize>, n: int) -> (
    DecoderModel,
    Seq<(usize, usize)>,
)
    recommends
        n >= 0,
        edges_in_range(edges, n),
{
    decoder_rounds(decoder_inject(decoder_init(n), syndromes, syndromes.len() as int), edges)
}

proof fn lemma_inject(m: DecoderModel, syndromes: Seq<usize>, k: int)
    requires
        decoder_model_wf(m),
        0 <= k <= syndromes.len(),
    ensures
        decoder_model_wf(decoder_inject(m, syndromes, k)),
        decoder_inject(m, syndromes, k).dsu.roots == m.dsu.roots,
        decoder_inject(m, syndromes, k).dsu.rank == m.dsu.rank,
        decoder_inject(m, syndromes, k).dsu.par.len() == m.dsu.par.len(),
        decoder_inject(m, syndromes, k).touched.len() == m.touched.len(),
    decreases k,
{
    if k > 0 {
        lemma_inject(m, syndromes, k - 1);
    }
}

proof fn lemma_identity_num_roots_upto(n: int, hi: int)
    requires
        0 <= hi <= n,
    ensures
        crate::dsu::model_num_roots_upto(model_identity(n).roots, hi) == hi,
    decreases hi,
{
    if hi > 0 {
        lemma_identity_num_roots_upto(n, hi - 1);
    }
}

proof fn lemma_decoder_init_wf(n: int)
    requires
        n >= 0,
    ensures
        decoder_model_wf(decoder_init(n)),
        decoder_init(n).dsu.roots.len() == n,
        model_num_roots(decoder_init(n).dsu) == n,
{
    lemma_identity_num_roots_upto(n, n);
}

proof fn lemma_sweep_untouched(m: DecoderModel, edges: Seq<(u32, u32)>, k: int)
    requires
        decoder_model_wf(m),
        edges_in_range(edges, m.dsu.roots.len() as int),
        0 <= k <= edges.len(),
        forall|d: int| 0 <= d < m.touched.len() ==> !(#[trigger] m.touched[d]),
    ensures
        decoder_sweep(m, edges, k) == (m, Seq::<(usize, usize)>::empty()),
    decreases k,
{
    if k > 0 {
        lemma_sweep_untouched(m, edges, k - 1);
    }
}

/// With no syndromes injected, a decoding job is a no-op: it emits no
/// corrections, performs no merges, and leaves every touched flag clear.
pub proof fn lemma_decoder_solve_no_syndromes(edges: Seq<(u32, u32)>, n: int)
    requires
        n >= 0,
        edges_in_range(edges, n),
    ensures
        decoder_solve(edges, Seq::empty(), n) == (decoder_init(n), Seq::<(usize, usize)>::empty()),
{
    lemma_decoder_init_wf(n);
    let m0 = decoder_init(n);
    assert(decoder_inject(m0, Seq::empty(), 0) == m0);
    lemma_sweep_untouched(m0, edges, edges.len() as int);
    assert(decoder_rounds(m0, edges) == (m0, Seq::<(usize, usize)>::empty()));
}

/// Whether `c` names the endpoints of some edge of the list.
pub open spec fn is_graph_edge(edges: Seq<(u32, u32)>, c: (usize, usize)) -> bool {
    exists|e: int|
        0 <= e < edges.len() && (#[trigger] edges[e]).0 == c.0 as u32 && edges[e].1 == c.1 as u32
            && c.0 == edges[e].0 as usize && c.1 == edges[e].1 as usize
}

proof fn lemma_sweep_corrections_are_edges(m: DecoderModel, edges: Seq<(u32, u32)>, k: int)
    requires
        0 <= k <= edges.len(),
    ensures
        forall|q: int|
            0 <= q < decoder_sweep(m, edges, k).1.len() ==> is_graph_edge(
                edges,
                #[trigger] decoder_sweep(m, edges, k).1[q],
            ),
    decreases k,
{
    if k > 0 {
        lemma_sweep_corrections_are_edges(m, edges, k - 1);
        let prev = decoder_sweep(m, edges, k - 1);
        let step = decoder_edge_step(prev.0, edges[k - 1].0 as int, edges[k - 1].1 as int);
        match step.1 {
            Some(c) => {
                assert(edges[k - 1].0 == c.0 as u32 && edges[k - 1].1 == c.1 as u32 && c.0
                    == edges[k - 1].0 as usize && c.1 == edges[k - 1].1 as usize);
                assert(is_graph_edge(edges, c));
            },
            None => {},
        }
    }
}

proof fn lemma_rounds_corrections_are_edges(m: DecoderModel, edges: Seq<(u32, u32)>)
    requires
        decoder_model_wf(m),
        edges_in_range(edges, m.dsu.roots.len() as int),
    ensures
        forall|q: int|
            0 <= q < decoder_rounds(m, edges).1.len() ==> is_graph_edge(
                edges,
                #[trigger] decoder_rounds(m, edges).1[q],
            ),
    decreases model_num_roots(m.dsu),
{
    lemma_sweep(m, edges, edges.len() as int);
    lemma_sweep_corrections_are_edges(m, edges, edges.len() as int);
    let s = decoder_sweep(m, edges, edges.len() as int);
    if s.1.len() != 0 {
        lemma_model_num_roots_bounds(s.0.dsu.roots, s.0.dsu.roots.len() as int);
        lemma_rounds_corrections_are_edges(s.0, edges);
        let rest = decoder_rounds(s.0, edges);
        assert forall|q: int| 0 <= q < decoder_rounds(m, edges).1.len() implies is_graph_edge(
            edges,
            #[trigger] decoder_rounds(m, edges).1[q],
        ) by {
            if q < s.1.len() {
                assert(decoder_rounds(m, edges).1[q] == s.1[q]);
            } else {
                assert(decoder_rounds(m, edges).1[q] == rest.1[q - s.1.len()]);
            }
        }
    }
}

/// Every correction a decoding job emits is an edge of the graph: the
/// decoder matches only along edges, so in particular it can never match
/// syndromes across disconnected components.
pub proof fn lemma_solve_corrections_are_edges(
    edges: Seq<(u32, u32)>,
    syndromes: Seq<usize>,
    n: int,
)
    requires
        n >= 0,
        edges_in_range(edges, n),
    ensures
        forall|q: int|
            0 <= q < decoder_solve(edges, syndromes, n).1.len() ==> is_graph_edge(
                edges,
                #[trigger] decoder_solve(edges, syndromes, n).1[q],
            ),
{
    lemma_decoder_init_wf(n);
    lemma_inject(decoder_init(n), syndromes, syndromes.len() as int);
    lemma_rounds_corrections_are_edges(
        decoder_inject(decoder_init(n), syndromes, syndromes.len() as int),
        edges,
    );
}

/// A graph without edges yields no corrections, whatever the syndromes:
/// an odd cluster in such a graph has nothing to merge with.
pub proof fn lemma_solve_no_edges(syndromes: Seq<usize>, n: int)
    requires
        n >= 0,
    ensures
        decoder_solve(Seq::empty(), syndromes, n).1 == Seq::<(usize, usize)>::empty(),
{
    lemma_decoder_init_wf(n);
    lemma_inject(decoder_init(n), syndromes, syndromes.len() as int);
    let m1 = decoder_inject(decoder_init(n), syndromes, syndromes.len() as int);
    assert(decoder_sweep(m1, Seq::empty(), 0) == (m1, Seq::<(usize, usize)>::empty()));
}

/// A sink that accumulates correction edges.  Abstracts over heap-backed
/// and fixed-capacity buffers so the decoder runs in both the hosted and
/// the embedded setting.
pub trait CorrectionBuffer {
    /// The corrections accumulated so far.
    spec fn contents(&self) -> Seq<(usize, usize)>;

    /// How many corrections the sink can hold.
    spec fn max_len(&self) -> int;

    /// The error this sink reports when it is full.
    spec fn overflow_error(&self) -> QecError;

    /// Empties the sink.
    fn clear_buffer(&mut self)
        ensures
            final(self).contents() == Seq::<(usize, usize)>::empty(),
            final(self).max_len() == old(self).max_len(),
            final(self).overflow_error() == old(self).overflow_error(),
    ;

    /// Appends the correction `(u, v)`; always succeeds while the sink has
    /// room, and on failure reports the sink's error and keeps its state.
    fn push_correction(&mut self, u: usize, v: usize) -> (r: Result<(), QecError>)
        ensures
            old(self).contents().len() < old(self).max_len() ==> r == Ok::<(), QecError>(()),
            match r {
                Ok(()) => {
                    &&& final(self).contents() == old(self).contents().push((u, v))
                    &&& final(self).max_len() == old(self).max_len()
                    &&& final(self).overflow_error() == old(self).overflow_error()
                },
                Err(e) => {
                    &&& e == old(self).overflow_error()
                    &&& final(self).contents() == old(self).contents()
                    &&& final(self).max_len() == old(self).max_len()
                    &&& final(self).overflow_error() == old(self).overflow_error()
                    &&& old(self).contents().len() >= old(self).max_len()
                },
            },
    ;
}

impl<const N: usize> CorrectionBuffer for StaticVec<(usize, usize), N> {
    open spec fn contents(&self) -> Seq<(usize, usize)> {
        self@
    }

    open spec fn max_len(&self) -> int {
        N as int
    }

    open spec fn overflow_error(&self) -> QecError {
        QecError::BufferOverflow
    }

    fn clear_buffer(&mut self) {
        self.clear();
    }

    fn push_correction(&mut self, u: usize, v: usize) -> (r: Result<(), QecError>) {
        match self.push((u, v)) {
            Ok(()) => Ok(()),
            Err(_) => Err(QecError::BufferOverflow),
        }
    }
}

impl CorrectionBuffer for Vec<(usize, usize)> {
    open spec fn contents(&self) -> Seq<(usize, usize)> {
        self@
    }

    open spec fn max_len(&self) -> int {
        usize::MAX as int
    }

    open spec fn overflow_error(&self) -> QecError {
        QecError::OutOfMemory
    }

    fn clear_buffer(&mut self) {
        self.clear();
    }

    fn push_correction(&mut self, u: usize, v: usize) -> (r: Result<(), QecError>) {
        self.push((u, v));
        Ok(())
    }
}

/// Union-find decoder with reusable working storage for up to a fixed
/// number of nodes, chosen at construction.
pub struct UnionFindDecoder {
    dsu: UnionFind,
    touched: Vec<bool>,
    n_max: usize,
}

impl UnionFindDecoder {
    /// The node capacity the decoder was built with.
    pub closed spec fn capacity_spec(&self) -> int {
        self.n_max as int
    }

    /// The mathematical state of the current (or last) decoding job.
    pub closed spec fn model(&self) -> DecoderModel {
        DecoderModel { dsu: self.dsu.abs(), touched: self.touched@ }
    }

    /// Creates a decoder able to handle graphs of up to `n_max` nodes.
    pub fn new(n_max: usize) -> (r: Self)
        requires
            n_max + 63 <= usize::MAX,
        ensures
            r.capacity_spec() == n_max,
    {
        UnionFindDecoder { dsu: UnionFind::new(0), touched: Vec::new(), n_max }
    }

    /// The node capacity the decoder was built with.
    pub fn capacity(&self) -> (r: usize)
        ensures
            r == self.capacity_spec(),
    {
        self.n_max
    }

    /// Whether node `i` was a syndrome endpoint or an end of a merged
    /// cluster in the last decoding job.
    pub fn is_touched(&self, i: usize) -> (b: bool)
        requires
            i < self.model().touched.len(),
        ensures
            b == self.model().touched[i as int],
    {
        self.touched[i]
    }

    /// Number of touched flags held (the node count of the last job).
    pub fn touched_len(&self) -> (r: usize)
        ensures
            r == self.model().touched.len(),
    {
        self.touched.len()
    }

    /// Runs one decoding job: resets the working state to `n` singleton
    /// clusters, injects the in-range syndrome indices as parity toggles,
    /// and sweeps the edge list to a fixpoint, pushing each merged edge
    /// into `out_buffer` in sweep order.
    ///
    /// The outcome is pinned by the functional model: on success the sink
    /// holds exactly `decoder_solve(edges, syndromes, n)`, a function of
    /// the inputs alone — two runs on identical inputs produce identical
    /// corrections.  A sink with room for `n` corrections never overflows;
    /// a smaller sink receives a prefix and the sink's overflow error is
    /// returned.
    pub fn solve_into<CB: CorrectionBuffer>(
        &mut self,
        graph: &DecodingGraph,
        syndrome_indices: &[usize],
        out_buffer: &mut CB,
    ) -> (res: Result<(), QecError>)
        requires
            graph.wf(),
            graph.max_node_id <= old(self).capacity_spec(),
            old(self).capacity_spec() + 63 <= usize::MAX,
        ensures
            final(self).capacity_spec() == old(self).capacity_spec(),
            final(out_buffer).max_len() == old(out_buffer).max_len(),
            final(out_buffer).overflow_error() == old(out_buffer).overflow_error(),
            ({
                let sol = decoder_solve(
                    graph.fast_edges@,
                    syndrome_indices@,
                    graph.max_node_id as int,
                );
                &&& match res {
                    Ok(()) => final(out_buffer).contents() == sol.1 && final(self).model()
                        == sol.0,
                    Err(e) => {
                        &&& e == old(out_buffer).overflow_error()
                        &&& final(out_buffer).contents().len() >= old(out_buffer).max_len()
                        &&& final(out_buffer).contents().len() < sol.1.len()
                        &&& final(out_buffer).contents() == sol.1.take(
                            final(out_buffer).contents().len() as int,
                        )
                    },
                }
                &&& (old(out_buffer).max_len() >= graph.max_node_id ==> res == Ok::<
                    (),
                    QecError,
                >(()))
            }),
    {
        out_buffer.clear_buffer();
        let num_nodes = if graph.num_nodes() < self.n_max {
            graph.num_nodes()
        } else {
            self.n_max
        };
        let ghost n: int = graph.max_node_id as int;
        proof {
            assert(num_nodes == n);
        }
        self.dsu.reset(num_nodes);
        self.touched.clear();
        let mut t: usize = 0;
        while t < num_nodes
            invariant
                t <= num_nodes,
                self.touched@.len() == t,
                forall|d: int| 0 <= d < t ==> !(#[trigger] self.touched@[d]),
                self.dsu.wf(),
                self.dsu.n_spec() == num_nodes,
                self.dsu.abs() == model_identity(num_nodes as int),
                self.n_max == old(self).n_max,
            decreases num_nodes - t,
        {
            self.touched.push(false);
            t = t + 1;
        }
        proof {
            lemma_decoder_init_wf(n);
            assert(self.model().touched =~= decoder_init(n).touched);
            assert(self.model() =~= decoder_init(n));
        }
        let ghost syn = syndrome_indices@;
        let slen = syndrome_indices.len();
        let mut s: usize = 0;
        while s < slen
            invariant
                s <= slen,
                slen == syn.len(),
                syndrome_indices@ == syn,
                graph.max_node_id as int == n,
                num_nodes == n,
                self.dsu.wf(),
                self.dsu.n_spec() == num_nodes,
                self.touched@.len() == num_nodes,
                self.model() == decoder_inject(decoder_init(n), syn, s as int),
                decoder_model_wf(self.model()),
                self.n_max == old(self).n_max,
            decreases slen - s,
        {
            let idx = *vstd::slice::slice_index_get(syndrome_indices, s);
            let ghost mprev = self.model();
            if idx < num_nodes {
                self.dsu.toggle_parity(idx);
                self.touched[idx] = true;
                proof {
                    assert(self.model() =~= decoder_inject(decoder_init(n), syn, s as int + 1));
                }
            } else {
                proof {
                    assert(decoder_inject(decoder_init(n), syn, s as int + 1) == mprev);
                }
            }
            proof {
                assert(decoder_model_wf(self.model())) by {
                    lemma_inject(decoder_init(n), syn, s as int + 1);
                }
            }
            s = s + 1;
        }
        let ghost m1 = decoder_inject(decoder_init(n), syn, syn.len() as int);
        let ghost medges = graph.fast_edges@;
        let ghost sol = decoder_rounds(m1, medges);
        proof {
            assert(self.model() == m1);
            assert(edges_in_range(medges, n));
            lemma_inject(decoder_init(n), syn, syn.len() as int);
            assert(model_num_roots(m1.dsu) == n);
            lemma_rounds(m1, medges);
            if n >= 1 {
                lemma_model_num_roots_pos(sol.0.dsu);
            } else {
                lemma_model_num_roots_bounds(sol.0.dsu.roots, sol.0.dsu.roots.len() as int);
            }
            lemma_model_num_roots_bounds(self.model().dsu.roots, n);
        }
        let edges_len = graph.fast_edges.len();
        let mut done = false;
        while !done
            invariant
                graph.wf(),
                graph.max_node_id as int == n,
                medges == graph.fast_edges@,
                edges_len == medges.len(),
                edges_in_range(medges, n),
                num_nodes == n,
                self.dsu.wf(),
                self.dsu.n_spec() == num_nodes,
                self.touched@.len() == num_nodes,
                decoder_model_wf(self.model()),
                self.n_max == old(self).n_max,
                out_buffer.max_len() == old(out_buffer).max_len(),
                out_buffer.overflow_error() == old(out_buffer).overflow_error(),
                syndrome_indices@ == syn,
                m1 == decoder_inject(decoder_init(n), syn, syn.len() as int),
                sol == decoder_rounds(m1, medges),
                sol.0 == decoder_rounds(self.model(), medges).0,
                sol.1 == out_buffer.contents() + decoder_rounds(self.model(), medges).1,
                done ==> decoder_rounds(self.model(), medges).1 == Seq::<(usize, usize)>::empty(),
                n >= 1 ==> sol.1.len() < n,
                n == 0 ==> sol.1.len() == 0,
                model_num_roots(self.model().dsu) >= 0,
            decreases model_num_roots(self.model().dsu), (if done {
                0int
            } else {
                1int
            }),
        {
            let ghost m_rs = self.model();
            let ghost c_rs = out_buffer.contents();
            let mut changed = false;
            let mut e: usize = 0;
            while e < edges_len
                invariant
                    e <= edges_len,
                    graph.wf(),
                    graph.max_node_id as int == n,
                    medges == graph.fast_edges@,
                    edges_len == medges.len(),
                    edges_in_range(medges, n),
                    num_nodes == n,
                    self.dsu.wf(),
                    self.dsu.n_spec() == num_nodes,
                    self.touched@.len() == num_nodes,
                    self.n_max == old(self).n_max,
                    out_buffer.max_len() == old(out_buffer).max_len(),
                    out_buffer.overflow_error() == old(out_buffer).overflow_error(),
                    decoder_model_wf(m_rs),
                    m_rs.dsu.roots.len() == n,
                    decoder_sweep(m_rs, medges, e as int).0 == self.model(),
                    out_buffer.contents() == c_rs + decoder_sweep(m_rs, medges, e as int).1,
                    changed == (decoder_sweep(m_rs, medges, e as int).1.len() > 0),
                    syndrome_indices@ == syn,
                    m1 == decoder_inject(decoder_init(n), syn, syn.len() as int),
                    sol == decoder_rounds(m1, medges),
                    sol.0 == decoder_rounds(m_rs, medges).0,
                    sol.1 == c_rs + decoder_rounds(m_rs, medges).1,
                    n >= 1 ==> sol.1.len() < n,
                    n == 0 ==> sol.1.len() == 0,
                decreases edges_len - e,
            {
                let ed = *vstd::slice::slice_index_get(graph.fast_edges.as_slice(), e);
                let u = ed.0 as usize;
                let v = ed.1 as usize;
                let ghost mcur = self.model();
                proof {
                    assert(medges[e as int] == ed);
                    assert(u < num_nodes && v < num_nodes);
                    lemma_sweep(m_rs, medges, e as int);
                }
                let tu = self.touched[u];
                let tv = self.touched[v];
                let mut stepped = false;
                if tu || tv {
                    let root_u = self.dsu.find(u);
                    let root_v = self.dsu.find(v);
                    if root_u != root_v {
                        let u_active = self.dsu.parity_bit(root_u);
                        let v_active = self.dsu.parity_bit(root_v);
                        if u_active || v_active {
                            let merged = self.dsu.union(u, v);
                            proof {
                                assert(merged);
                            }
                            match out_buffer.push_correction(u, v) {
                                Ok(()) => {},
                                Err(err) => {
                                    proof {
                                        lemma_sweep_prefix(m_rs, medges, e as int + 1, edges_len as int);
                                        lemma_sweep(m_rs, medges, edges_len as int);
                                        let sfull = decoder_sweep(m_rs, medges, edges_len as int);
                                        let prev = decoder_sweep(m_rs, medges, e as int);
                                        assert(decoder_sweep(m_rs, medges, e as int + 1).1
                                            == prev.1.push((u, v)));
                                        assert(sfull.1.len() >= prev.1.len() + 1);
                                        assert(decoder_rounds(m_rs, medges).1.take(sfull.1.len() as int)
                                            == sfull.1) by {
                                            assert(decoder_rounds(m_rs, medges).1 == sfull.1
                                                + decoder_rounds(sfull.0, medges).1);
                                            assert((sfull.1 + decoder_rounds(sfull.0, medges).1).take(
                                                sfull.1.len() as int,
                                            ) =~= sfull.1);
                                        }
                                        let cl: int = out_buffer.contents().len() as int;
                                        assert(out_buffer.contents() == c_rs + prev.1);
                                        assert(cl == c_rs.len() + prev.1.len());
                                        assert(decoder_rounds(m_rs, medges).1.len() >= sfull.1.len());
                                        assert(cl < sol.1.len());
                                        assert(prev.1 == sfull.1.take(prev.1.len() as int));
                                        assert(decoder_rounds(m_rs, medges).1.take(prev.1.len() as int)
                                            =~= prev.1);
                                        assert(sol.1.take(cl) =~= out_buffer.contents());
                                    }
                                    return Err(err);
                                },
                            }
                            self.touched[u] = true;
                            self.touched[v] = true;
                            changed = true;
                            stepped = true;
                            proof {
                                let st = decoder_edge_step(mcur, u as int, v as int);
                                assert(st.1 == Some((u, v)));
                                assert(self.model().dsu == st.0.dsu);
                                assert(self.model().touched =~= st.0.touched);
                                assert(self.model() =~= st.0);
                                assert(out_buffer.contents() =~= c_rs + decoder_sweep(
                                    m_rs,
                                    medges,
                                    e as int + 1,
                                ).1);
                            }
                        }
                    }
                }
                proof {
                    if !stepped {
                        assert(decoder_edge_step(mcur, u as int, v as int).1
                            == None::<(usize, usize)>);
                        assert(decoder_sweep(m_rs, medges, e as int + 1).0 == self.model());
                        assert(decoder_sweep(m_rs, medges, e as int + 1).1 == decoder_sweep(
                            m_rs,
                            medges,
                            e as int,
                        ).1);
                    }
                }
                e = e + 1;
            }
            proof {
                lemma_sweep(m_rs, medges, edges_len as int);
            }
            if !changed {
                done = true;
                proof {
                    let sfull = decoder_sweep(m_rs, medges, edges_len as int);
                    assert(sfull.1.len() == 0);
                    assert(sfull.0 == m_rs);
                    assert(decoder_rounds(m_rs, medges) == sfull);
                    assert(self.model() == m_rs);
                    assert(decoder_rounds(self.model(), medges).1 == Seq::<(
                        usize,
                        usize,
                    )>::empty());
                }
            } else {
                proof {
                    let sfull = decoder_sweep(m_rs, medges, edges_len as int);
                    assert(sfull.0 == self.model());
                    assert(sfull.1.len() > 0);
                    assert(decoder_rounds(m_rs, medges).0 == decoder_rounds(sfull.0, medges).0);
                    assert(decoder_rounds(m_rs, medges).1 == sfull.1 + decoder_rounds(
                        sfull.0,
                        medges,
                    ).1);
                    assert(sol.1 == c_rs + sfull.1 + decoder_rounds(self.model(), medges).1);
                    assert(out_buffer.contents() == c_rs + sfull.1);
                    assert(sol.1 =~= out_buffer.contents() + decoder_rounds(
                        self.model(),
                        medges,
                    ).1);
                    assert(model_num_roots(self.model().dsu) == model_num_roots(m_rs.dsu)
                        - sfull.1.len());
                    lemma_model_num_roots_bounds(
                        self.model().dsu.roots,
                        self.model().dsu.roots.len() as int,
                    );
                }
            }
        }
        proof {
            assert(sol.0 == self.model()) by {
                lemma_sweep(self.model(), medges, edges_len as int);
                let sfull = decoder_sweep(self.model(), medges, edges_len as int);
                if sfull.1.len() != 0 {
                    assert(decoder_rounds(self.model(), medges).1 == sfull.1 + decoder_rounds(
                        sfull.0,
                        medges,
                    ).1);
                    assert(decoder_rounds(self.model(), medges).1.len() > 0);
                }
                assert(decoder_rounds(self.model(), medges) == sfull);
            }
            assert(out_buffer.contents() =~= sol.1);
        }
        Ok(())
    }
}

} // verus!
