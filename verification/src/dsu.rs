//! Disjoint-set union (union-find) with per-cluster parity tracking.
//!
//! Nodes are grouped into clusters; each cluster carries one parity bit,
//! stored at its root in a packed bit vector.  `find` uses path halving,
//! `union` merges by rank and XORs the two cluster parities.  The
//! mathematical state of the structure is its [`DsuModel`]: the map from
//! each node to its root, the rank table and the parity bits; every
//! operation's contract pins the model transition exactly.

use vstd::prelude::*;

verus! {

use crate::bit_utils::{BitPack, bit_get, lemma_zero_words};

/// Number of indices `i < k` with `p[i] == i`.
pub open spec fn count_roots_upto(p: Seq<usize>, k: int) -> int
    decreases k,
{
    if k <= 0 {
        0
    } else {
        count_roots_upto(p, k - 1) + (if p[k - 1] as int == k - 1 {
            1int
        } else {
            0int
        })
    }
}

/// Number of roots of the parent forest.
pub open spec fn count_roots(p: Seq<usize>) -> int {
    count_roots_upto(p, p.len() as int)
}

/// Well-formedness of a parent forest with its rank table: parents are in
/// range, rank strictly increases along parent links (which rules out
/// cycles), and ranks stay below the node count.
pub open spec fn rank_ok(p: Seq<usize>, r: Seq<usize>) -> bool {
    &&& r.len() == p.len()
    &&& forall|i: int| 0 <= i < p.len() ==> (#[trigger] p[i]) < p.len()
    &&& forall|i: int|
        0 <= i < p.len() && (#[trigger] p[i]) as int != i ==> r[i] < r[p[i] as int]
    &&& forall|i: int| 0 <= i < p.len() ==> (#[trigger] r[i]) < p.len()
}

pub open spec fn root_of_measure(p: Seq<usize>, r: Seq<usize>, i: int) -> int {
    if rank_ok(p, r) && 0 <= i < p.len() {
        p.len() - r[i]
    } else {
        0
    }
}

/// The root reached from node `i` by following parent links.
pub open spec fn root_of(p: Seq<usize>, r: Seq<usize>, i: int) -> int
    decreases root_of_measure(p, r, i),
{
    if rank_ok(p, r) && 0 <= i < p.len() && p[i] as int != i {
        root_of(p, r, p[i] as int)
    } else {
        i
    }
}

pub proof fn lemma_root_of_is_root(p: Seq<usize>, r: Seq<usize>, i: int)
    requires
        rank_ok(p, r),
        0 <= i < p.len(),
    ensures
        0 <= root_of(p, r, i) < p.len(),
        p[root_of(p, r, i)] as int == root_of(p, r, i),
        r[root_of(p, r, i)] >= r[i],
    decreases root_of_measure(p, r, i),
{
    if p[i] as int != i {
        lemma_root_of_is_root(p, r, p[i] as int);
    }
}

/// The root lookup is idempotent: looking up the root of a root returns it
/// unchanged, so a repeated `find` on the same node yields the same answer.
pub proof fn lemma_root_of_idempotent(p: Seq<usize>, r: Seq<usize>, i: int)
    requires
        rank_ok(p, r),
        0 <= i < p.len(),
    ensures
        root_of(p, r, root_of(p, r, i)) == root_of(p, r, i),
{
    lemma_root_of_is_root(p, r, i);
}

proof fn lemma_count_upto_bounds(p: Seq<usize>, k: int)
    requires
        0 <= k <= p.len(),
    ensures
        0 <= count_roots_upto(p, k) <= k,
    decreases k,
{
    if k > 0 {
        lemma_count_upto_bounds(p, k - 1);
    }
}

proof fn lemma_count_upto_update(p: Seq<usize>, j: int, x: usize, k: int)
    requires
        0 <= j < p.len(),
        0 <= k <= p.len(),
    ensures
        count_roots_upto(p.update(j, x), k) == count_roots_upto(p, k) - (if j < k && p[j] as int
            == j {
            1int
        } else {
            0int
        }) + (if j < k && x as int == j {
            1int
        } else {
            0int
        }),
    decreases k,
{
    if k > 0 {
        lemma_count_upto_update(p, j, x, k - 1);
    }
}

proof fn lemma_count_upto_member(p: Seq<usize>, rt: int, k: int)
    requires
        0 <= rt < k <= p.len(),
        p[rt] as int == rt,
    ensures
        count_roots_upto(p, k) >= 1,
    decreases k,
{
    lemma_count_upto_bounds(p, k - 1);
    if rt < k - 1 {
        lemma_count_upto_member(p, rt, k - 1);
    }
}

proof fn lemma_count_upto_two(p: Seq<usize>, a: int, b: int, k: int)
    requires
        0 <= a < p.len(),
        0 <= b < p.len(),
        a != b,
        p[a] as int == a,
        p[b] as int == b,
        0 <= k <= p.len(),
    ensures
        count_roots_upto(p, k) >= (if a < k {
            1int
        } else {
            0int
        }) + (if b < k {
            1int
        } else {
            0int
        }),
    decreases k,
{
    if k > 0 {
        lemma_count_upto_two(p, a, b, k - 1);
    }
}

proof fn lemma_count_upto_identity(p: Seq<usize>, k: int)
    requires
        0 <= k <= p.len(),
        forall|i: int| 0 <= i < p.len() ==> (#[trigger] p[i]) as int == i,
    ensures
        count_roots_upto(p, k) == k,
    decreases k,
{
    if k > 0 {
        lemma_count_upto_identity(p, k - 1);
    }
}

/// Replacing a node's parent by another node with the same root preserves
/// every root in the forest (path compression step).
proof fn lemma_compress_point(p: Seq<usize>, r: Seq<usize>, i: int, x: usize, j: int)
    requires
        rank_ok(p, r),
        0 <= i < p.len(),
        (x as int) < p.len(),
        r[i] < r[x as int],
        root_of(p, r, x as int) == root_of(p, r, i),
        p[i] as int != i,
        rank_ok(p.update(i, x), r),
        0 <= j < p.len(),
    ensures
        root_of(p.update(i, x), r, j) == root_of(p, r, j),
    decreases root_of_measure(p, r, j),
{
    let p2 = p.update(i, x);
    if j == i {
        lemma_compress_point(p, r, i, x, x as int);
    } else {
        if p[j] as int != j {
            lemma_compress_point(p, r, i, x, p[j] as int);
        }
    }
}

proof fn lemma_compress(p: Seq<usize>, r: Seq<usize>, i: int, x: usize)
    requires
        rank_ok(p, r),
        0 <= i < p.len(),
        (x as int) < p.len(),
        r[i] < r[x as int],
        root_of(p, r, x as int) == root_of(p, r, i),
        p[i] as int != i,
    ensures
        rank_ok(p.update(i, x), r),
        forall|j: int|
            0 <= j < p.len() ==> root_of(p.update(i, x), r, j) == root_of(p, r, j),
        count_roots(p.update(i, x)) == count_roots(p),
{
    let p2 = p.update(i, x);
    assert(x as int != i);
    assert(rank_ok(p2, r));
    assert forall|j: int| 0 <= j < p.len() implies root_of(p2, r, j) == root_of(p, r, j) by {
        lemma_compress_point(p, r, i, x, j);
    }
    lemma_count_upto_update(p, i, x, p.len() as int);
}

/// Two well-formed rank tables over the same parent forest give the same
/// roots: the lookup only follows parent links.
proof fn lemma_rank_irrelevant(p: Seq<usize>, ra: Seq<usize>, rb: Seq<usize>, j: int)
    requires
        rank_ok(p, ra),
        rank_ok(p, rb),
        0 <= j < p.len(),
    ensures
        root_of(p, ra, j) == root_of(p, rb, j),
    decreases root_of_measure(p, ra, j),
{
    if p[j] as int != j {
        lemma_rank_irrelevant(p, ra, rb, p[j] as int);
    }
}

/// Attaching root `l` under root `w` sends every node of `l`'s cluster to
/// `w` and leaves all other roots alone.
proof fn lemma_reparent_point(p: Seq<usize>, r: Seq<usize>, l: int, w: int, j: int)
    requires
        rank_ok(p, r),
        0 <= l < p.len(),
        0 <= w < p.len(),
        l != w,
        p[l] as int == l,
        p[w] as int == w,
        r[l] < r[w],
        rank_ok(p.update(l, w as usize), r),
        0 <= j < p.len(),
    ensures
        root_of(p.update(l, w as usize), r, j) == (if root_of(p, r, j) == l {
            w
        } else {
            root_of(p, r, j)
        }),
    decreases root_of_measure(p, r, j),
{
    let p2 = p.update(l, w as usize);
    if j == l {
        assert(root_of(p2, r, l) == root_of(p2, r, w));
    } else {
        if p[j] as int != j {
            lemma_reparent_point(p, r, l, w, p[j] as int);
        }
    }
}

proof fn lemma_reparent(p: Seq<usize>, r: Seq<usize>, l: int, w: int)
    requires
        rank_ok(p, r),
        0 <= l < p.len(),
        0 <= w < p.len(),
        l != w,
        p[l] as int == l,
        p[w] as int == w,
        r[l] < r[w],
    ensures
        rank_ok(p.update(l, w as usize), r),
        forall|j: int|
            0 <= j < p.len() ==> root_of(p.update(l, w as usize), r, j) == (if root_of(p, r, j)
                == l {
                w
            } else {
                root_of(p, r, j)
            }),
        count_roots(p.update(l, w as usize)) == count_roots(p) - 1,
{
    let p2 = p.update(l, w as usize);
    assert(rank_ok(p2, r));
    assert forall|j: int| 0 <= j < p.len() implies root_of(p2, r, j) == (if root_of(p, r, j)
        == l {
        w
    } else {
        root_of(p, r, j)
    }) by {
        lemma_reparent_point(p, r, l, w, j);
    }
    lemma_count_upto_update(p, l, w as usize, p.len() as int);
}

/// Mathematical state of the union-find: the root of every node, the rank
/// table, and one parity bit per node (meaningful at roots).
#[verifier::ext_equal]
pub struct DsuModel {
    pub roots: Seq<int>,
    pub rank: Seq<int>,
    pub par: Seq<bool>,
}

/// Well-formedness of a model: the root map is an idempotent map into the
/// node range, and the tables have matching lengths.
pub open spec fn model_wf(m: DsuModel) -> bool {
    &&& m.rank.len() == m.roots.len()
    &&& m.par.len() == m.roots.len()
    &&& forall|k: int| 0 <= k < m.roots.len() ==> 0 <= (#[trigger] m.roots[k]) < m.roots.len()
    &&& forall|k: int|
        #![trigger m.roots[k]]
        0 <= k < m.roots.len() ==> m.roots[m.roots[k]] == m.roots[k]
}

/// The model of a freshly initialised structure over `n` nodes: every node
/// its own root, all ranks zero, all parity bits clear.
pub open spec fn model_identity(n: int) -> DsuModel
    recommends
        n >= 0,
{
    DsuModel {
        roots: Seq::new(n as nat, |k: int| k),
        rank: Seq::new(n as nat, |k: int| 0int),
        par: Seq::new(n as nat, |k: int| false),
    }
}

/// What `union(u, v)` does to the model.  Distinct clusters are merged by
/// rank — the shallower root is attached under the deeper, the first
/// argument's root winning ties and gaining one rank — and the surviving
/// root's parity bit becomes the XOR of the two cluster parities.
pub open spec fn model_union(m: DsuModel, u: int, v: int) -> DsuModel
    recommends
        model_wf(m),
        0 <= u < m.roots.len(),
        0 <= v < m.roots.len(),
{
    let ru: int = m.roots[u];
    let rv: int = m.roots[v];
    if ru == rv {
        m
    } else if m.rank[ru] < m.rank[rv] {
        DsuModel {
            roots: Seq::new(
                m.roots.len(),
                |k: int|
                    if m.roots[k] == ru || m.roots[k] == rv {
                        rv
                    } else {
                        m.roots[k]
                    },
            ),
            rank: m.rank,
            par: m.par.update(rv, m.par[ru] != m.par[rv]),
        }
    } else {
        DsuModel {
            roots: Seq::new(
                m.roots.len(),
                |k: int|
                    if m.roots[k] == ru || m.roots[k] == rv {
                        ru
                    } else {
                        m.roots[k]
                    },
            ),
            rank: if m.rank[ru] == m.rank[rv] {
                m.rank.update(ru, m.rank[ru] + 1)
            } else {
                m.rank
            },
            par: m.par.update(ru, m.par[ru] != m.par[rv]),
        }
    }
}

/// What `toggle_parity(d)` does to the model: the bit at `d`'s root flips.
pub open spec fn model_toggle(m: DsuModel, d: int) -> DsuModel
    recommends
        model_wf(m),
        0 <= d < m.roots.len(),
{
    let rt: int = m.roots[d];
    DsuModel { roots: m.roots, rank: m.rank, par: m.par.update(rt, !m.par[rt]) }
}

/// What `set_parity(d, v)` does to the model: the bit at `d`'s root is
/// written.
pub open spec fn model_set_parity(m: DsuModel, d: int, v: bool) -> DsuModel
    recommends
        model_wf(m),
        0 <= d < m.roots.len(),
{
    DsuModel { roots: m.roots, rank: m.rank, par: m.par.update(m.roots[d], v) }
}

/// Number of indices `k < hi` that are cluster roots of the model.
pub open spec fn model_num_roots_upto(roots: Seq<int>, hi: int) -> int
    decreases hi,
{
    if hi <= 0 {
        0
    } else {
        model_num_roots_upto(roots, hi - 1) + (if roots[hi - 1] == hi - 1 {
            1int
        } else {
            0int
        })
    }
}

/// Number of clusters of the model.
pub open spec fn model_num_roots(m: DsuModel) -> int {
    model_num_roots_upto(m.roots, m.roots.len() as int)
}

pub proof fn lemma_model_num_roots_bounds(roots: Seq<int>, hi: int)
    requires
        0 <= hi <= roots.len(),
    ensures
        0 <= model_num_roots_upto(roots, hi) <= hi,
    decreases hi,
{
    if hi > 0 {
        lemma_model_num_roots_bounds(roots, hi - 1);
    }
}

proof fn lemma_model_num_roots_congruent(a: Seq<int>, b: Seq<int>, hi: int)
    requires
        a.len() == b.len(),
        0 <= hi <= a.len(),
        forall|k: int| 0 <= k < a.len() ==> ((#[trigger] a[k]) == k <==> b[k] == k),
    ensures
        model_num_roots_upto(a, hi) == model_num_roots_upto(b, hi),
    decreases hi,
{
    if hi > 0 {
        lemma_model_num_roots_congruent(a, b, hi - 1);
    }
}

proof fn lemma_model_num_roots_drop(a: Seq<int>, b: Seq<int>, l: int, hi: int)
    requires
        a.len() == b.len(),
        0 <= l < a.len(),
        a[l] == l,
        b[l] != l,
        forall|k: int| 0 <= k < a.len() && k != l ==> ((#[trigger] a[k]) == k <==> b[k] == k),
        0 <= hi <= a.len(),
    ensures
        model_num_roots_upto(b, hi) == model_num_roots_upto(a, hi) - (if l < hi {
            1int
        } else {
            0int
        }),
    decreases hi,
{
    if hi > 0 {
        lemma_model_num_roots_drop(a, b, l, hi - 1);
    }
}

/// Merging two distinct clusters removes exactly one root and keeps the
/// model well-formed.
pub proof fn lemma_model_union_wf(m: DsuModel, u: int, v: int)
    requires
        model_wf(m),
        0 <= u < m.roots.len(),
        0 <= v < m.roots.len(),
    ensures
        model_wf(model_union(m, u, v)),
        model_union(m, u, v).roots.len() == m.roots.len(),
        m.roots[u] != m.roots[v] ==> model_num_roots(model_union(m, u, v)) == model_num_roots(m)
            - 1,
        m.roots[u] == m.roots[v] ==> model_union(m, u, v) == m,
{
    let ru: int = m.roots[u];
    let rv: int = m.roots[v];
    let m2 = model_union(m, u, v);
    if ru != rv {
        let w: int = if m.rank[ru] < m.rank[rv] {
            rv
        } else {
            ru
        };
        let l: int = if m.rank[ru] < m.rank[rv] {
            ru
        } else {
            rv
        };
        assert(m.roots[w] == w && m.roots[l] == l);
        assert forall|k: int| 0 <= k < m2.roots.len() implies 0 <= (#[trigger] m2.roots[k])
            < m2.roots.len() && m2.roots[m2.roots[k]] == m2.roots[k] by {
            assert(m.roots[m.roots[k]] == m.roots[k]);
        }
        lemma_model_num_roots_drop(m.roots, m2.roots, l, m.roots.len() as int);
    }
}

/// A well-formed non-empty model has at least one cluster.
pub proof fn lemma_model_num_roots_pos(m: DsuModel)
    requires
        model_wf(m),
        m.roots.len() > 0,
    ensures
        model_num_roots(m) >= 1,
{
    let rt: int = m.roots[0];
    assert(0 <= rt < m.roots.len());
    assert(m.roots[rt] == rt) by {
        assert(m.roots[m.roots[0]] == m.roots[0]);
    }
    lemma_model_num_roots_member(m.roots, rt, m.roots.len() as int);
}

proof fn lemma_model_num_roots_member(roots: Seq<int>, rt: int, hi: int)
    requires
        0 <= rt < hi <= roots.len(),
        roots[rt] == rt,
    ensures
        model_num_roots_upto(roots, hi) >= 1,
    decreases hi,
{
    lemma_model_num_roots_bounds(roots, hi - 1);
    if rt < hi - 1 {
        lemma_model_num_roots_member(roots, rt, hi - 1);
    }
}

/// Folding a run of parity toggles over the model.
pub open spec fn model_toggle_all(m: DsuModel, ds: Seq<int>) -> DsuModel
    decreases ds.len(),
{
    if ds.len() == 0 {
        m
    } else {
        model_toggle(model_toggle_all(m, ds.drop_last()), ds.last())
    }
}

/// Parity accumulation law: a run of parity toggles on detectors whose
/// clusters all share the root `rt` flips the bit at `rt` once per toggle,
/// so it ends at its start value XOR the parity of the toggle count, and no
/// other cluster's bit moves.
pub proof fn lemma_toggle_parity_accumulates(m: DsuModel, ds: Seq<int>, rt: int)
    requires
        model_wf(m),
        0 <= rt < m.roots.len(),
        forall|q: int|
            0 <= q < ds.len() ==> 0 <= (#[trigger] ds[q]) < m.roots.len() && m.roots[ds[q]] == rt,
    ensures
        model_toggle_all(m, ds).roots == m.roots,
        model_toggle_all(m, ds).rank == m.rank,
        model_toggle_all(m, ds).par.len() == m.par.len(),
        model_toggle_all(m, ds).par[rt] == (m.par[rt] != (ds.len() % 2 == 1)),
        forall|k: int|
            0 <= k < m.par.len() && k != rt ==> model_toggle_all(m, ds).par[k] == m.par[k],
    decreases ds.len(),
{
    if ds.len() > 0 {
        assert(forall|q: int|
            0 <= q < ds.drop_last().len() ==> #[trigger] ds.drop_last()[q] == ds[q]);
        lemma_toggle_parity_accumulates(m, ds.drop_last(), rt);
        let d: int = ds.last();
        assert(m.roots[d] == rt);
        assert(ds.len() % 2 == (if ds.drop_last().len() % 2 == 1 {
            0int
        } else {
            1int
        }));
    }
}

/// Union-find over a dense range of node indices, with one parity bit per
/// cluster packed into `u64` words.
pub struct UnionFind {
    parent: Vec<usize>,
    rank: Vec<usize>,
    parity: Vec<u64>,
}

impl UnionFind {
    /// Number of nodes.
    pub closed spec fn n_spec(&self) -> int {
        self.parent@.len() as int
    }

    /// The concrete parent array (exposed so that contracts can speak about
    /// path compression writes).
    pub closed spec fn parent_view(&self) -> Seq<usize> {
        self.parent@
    }

    /// Structure invariant: the parent/rank forest is acyclic with in-range
    /// ranks, the parity words cover all nodes, and ranks leave room for the
    /// remaining merges (which keeps rank arithmetic from overflowing).
    pub closed spec fn wf(&self) -> bool {
        &&& rank_ok(self.parent@, self.rank@)
        &&& self.parity@.len() == (self.parent@.len() + 63) / 64
        &&& forall|i: int|
            0 <= i < self.parent@.len() ==> (#[trigger] self.rank@[i]) + count_roots(self.parent@)
                <= self.parent@.len()
    }

    /// The mathematical state of the structure.
    pub closed spec fn abs(&self) -> DsuModel {
        DsuModel {
            roots: Seq::new(self.parent@.len(), |k: int| root_of(self.parent@, self.rank@, k)),
            rank: Seq::new(self.parent@.len(), |k: int| self.rank@[k] as int),
            par: Seq::new(self.parent@.len(), |k: int| bit_get(self.parity@, k)),
        }
    }

    /// A well-formed structure abstracts to a well-formed model.
    pub proof fn lemma_abs_wf(&self)
        requires
            self.wf(),
        ensures
            model_wf(self.abs()),
            self.abs().roots.len() == self.n_spec(),
    {
        assert forall|k: int| 0 <= k < self.n_spec() implies 0 <= (#[trigger] self.abs().roots[k])
            < self.n_spec() && self.abs().roots[self.abs().roots[k]] == self.abs().roots[k] by {
            lemma_root_of_is_root(self.parent@, self.rank@, k);
            lemma_root_of_idempotent(self.parent@, self.rank@, k);
        }
    }

    /// Initialises a structure over `n` singleton clusters.
    pub fn new(n: usize) -> (r: Self)
        requires
            n + 63 <= usize::MAX,
        ensures
            r.wf(),
            r.n_spec() == n,
            r.abs() == model_identity(n as int),
    {
        let mut r = UnionFind { parent: Vec::new(), rank: Vec::new(), parity: Vec::new() };
        r.reset(n);
        r
    }

    /// Resets the structure in place to `n` singleton clusters: every node
    /// its own parent, all ranks zero, all parity bits clear.
    pub fn reset(&mut self, n: usize)
        requires
            n + 63 <= usize::MAX,
        ensures
            final(self).wf(),
            final(self).n_spec() == n,
            final(self).abs() == model_identity(n as int),
    {
        self.parent.clear();
        self.rank.clear();
        self.parity.clear();
        let mut k: usize = 0;
        while k < n
            invariant
                k <= n,
                self.parent@.len() == k,
                self.rank@.len() == k,
                self.parity@.len() == 0,
                forall|i: int| 0 <= i < k ==> (#[trigger] self.parent@[i]) as int == i,
                forall|i: int| 0 <= i < k ==> (#[trigger] self.rank@[i]) == 0usize,
            decreases n - k,
        {
            self.parent.push(k);
            self.rank.push(0);
            k = k + 1;
        }
        let words: usize = (n + 63) / 64;
        let mut w: usize = 0;
        while w < words
            invariant
                w <= words,
                self.parity@.len() == w,
                self.parent@.len() == n,
                self.rank@.len() == n,
                forall|i: int| 0 <= i < n ==> (#[trigger] self.parent@[i]) as int == i,
                forall|i: int| 0 <= i < n ==> (#[trigger] self.rank@[i]) == 0usize,
                forall|i: int| 0 <= i < w ==> (#[trigger] self.parity@[i]) == 0u64,
            decreases words - w,
        {
            self.parity.push(0);
            w = w + 1;
        }
        proof {
            lemma_count_upto_identity(self.parent@, n as int);
            assert(self.wf());
            lemma_zero_words(self.parity@);
            assert(n <= self.parity@.len() * 64);
            assert(self.abs().roots =~= model_identity(n as int).roots);
            assert(self.abs().rank =~= model_identity(n as int).rank);
            assert(self.abs().par =~= model_identity(n as int).par);
            assert(self.abs() =~= model_identity(n as int));
        }
    }

    /// Finds the root of the cluster containing `i`, compressing the walked
    /// path by halving.  The cluster structure, ranks and parities are
    /// unchanged; in particular, when `i`'s parent is already a root the
    /// parent array is not changed at all, so an immediately repeated call
    /// writes nothing.
    pub fn find(&mut self, i: usize) -> (root: usize)
        requires
            old(self).wf(),
            i < old(self).n_spec(),
        ensures
            final(self).wf(),
            final(self).n_spec() == old(self).n_spec(),
            final(self).abs() == old(self).abs(),
            root < final(self).n_spec(),
            root as int == old(self).abs().roots[i as int],
            final(self).parent_view()[root as int] == root,
            count_roots(final(self).parent_view()) == count_roots(old(self).parent_view()),
            old(self).parent_view()[old(self).parent_view()[i as int] as int] == old(
                self,
            ).parent_view()[i as int] ==> final(self).parent_view() == old(self).parent_view(),
    {
        let ghost p0 = self.parent@;
        let ghost r0 = self.rank@;
        let ghost q0 = self.parity@;
        let mut x = i;
        while self.parent[x] != x
            invariant
                rank_ok(self.parent@, self.rank@),
                x < self.parent@.len(),
                self.parent@.len() == p0.len(),
                self.rank@ == r0,
                self.parity@ == q0,
                forall|j: int|
                    0 <= j < p0.len() ==> root_of(self.parent@, r0, j) == root_of(p0, r0, j),
                root_of(self.parent@, r0, x as int) == root_of(p0, r0, i as int),
                count_roots(self.parent@) == count_roots(p0),
                p0[p0[i as int] as int] == p0[i as int] ==> self.parent@ == p0,
                (p0[p0[i as int] as int] == p0[i as int] && self.parent@[x as int] as int != x)
                    ==> x == i,
            decreases p0.len() - r0[x as int],
        {
            let ghost pc = self.parent@;
            let p = self.parent[x];
            let gp = self.parent[p];
            self.parent[x] = gp;
            proof {
                if gp == p {
                    assert(self.parent@ =~= pc);
                } else {
                    assert(r0[x as int] < r0[p as int] < r0[gp as int]);
                    assert(root_of(pc, r0, x as int) == root_of(pc, r0, p as int));
                    assert(root_of(pc, r0, p as int) == root_of(pc, r0, gp as int));
                    lemma_compress(pc, r0, x as int, gp);
                }
            }
            x = p;
        }
        proof {
            assert(root_of(self.parent@, r0, x as int) == x as int);
            assert(self.wf()) by {
                assert(forall|k: int|
                    0 <= k < p0.len() ==> (#[trigger] r0[k]) + count_roots(self.parent@)
                        <= p0.len());
            }
            assert(self.abs().roots =~= old(self).abs().roots);
            assert(self.abs().rank =~= old(self).abs().rank);
            assert(self.abs().par =~= old(self).abs().par);
            assert(self.abs() =~= old(self).abs());
        }
        x
    }

    /// Merges the clusters containing `i` and `j`.  Returns `true` exactly
    /// when they were distinct; the resulting state is `model_union` of the
    /// previous one: merge by rank, surviving parity the XOR of the two.
    pub fn union(&mut self, i: usize, j: usize) -> (merged: bool)
        requires
            old(self).wf(),
            i < old(self).n_spec(),
            j < old(self).n_spec(),
        ensures
            final(self).wf(),
            final(self).n_spec() == old(self).n_spec(),
            merged == (old(self).abs().roots[i as int] != old(self).abs().roots[j as int]),
            final(self).abs() == model_union(old(self).abs(), i as int, j as int),
    {
        let ghost m0 = old(self).abs();
        let root_i = self.find(i);
        let root_j = self.find(j);
        if root_i != root_j {
            proof {
                assert(self.parity@.len() * 64 >= self.n_spec()) by {
                    assert(self.parity@.len() == (self.parent@.len() + 63) / 64);
                }
                lemma_root_of_is_root(self.parent@, self.rank@, i as int);
                lemma_root_of_is_root(self.parent@, self.rank@, j as int);
            }
            let ghost pm = self.parent@;
            let ghost rm = self.rank@;
            let ghost qm = self.parity@;
            let nn = self.parent.len();
            proof {
                assert(pm.len() == nn);
                assert(forall|k: int|
                    0 <= k < pm.len() ==> (#[trigger] rm[k]) + count_roots(pm) <= pm.len());
                lemma_count_upto_two(pm, root_i as int, root_j as int, pm.len() as int);
            }
            let p_i = BitPack::get(self.parity.as_slice(), root_i);
            let p_j = BitPack::get(self.parity.as_slice(), root_j);
            if self.rank[root_i] < self.rank[root_j] {
                self.parent[root_i] = root_j;
                proof {
                    lemma_reparent(pm, rm, root_i as int, root_j as int);
                }
                if p_i {
                    BitPack::toggle(self.parity.as_mut_slice(), root_j);
                }
                proof {
                    assert forall|c: int| 0 <= c < qm.len() * 64 implies bit_get(self.parity@, c)
                        == (if c == root_j as int {
                        bit_get(qm, root_j as int) != bit_get(qm, root_i as int)
                    } else {
                        bit_get(qm, c)
                    }) by {}
                    self.lemma_union_post(*old(self), m0, pm, rm, qm, i, j, root_i, root_j, false);
                }
            } else {
                let bump = self.rank[root_i] == self.rank[root_j];
                self.parent[root_j] = root_i;
                if bump {
                    proof {
                        assert(rm[root_i as int] + 1 < pm.len());
                        assert(pm.len() == nn);
                    }
                    let cur = self.rank[root_i];
                    self.rank[root_i] = cur + 1;
                    proof {
                        assert(self.rank@ =~= rm.update(
                            root_i as int,
                            (rm[root_i as int] + 1) as usize,
                        ));
                        assert(rank_ok(pm, self.rank@));
                        assert forall|k: int| 0 <= k < pm.len() implies root_of(
                            pm,
                            self.rank@,
                            k,
                        ) == root_of(pm, rm, k) by {
                            lemma_rank_irrelevant(pm, self.rank@, rm, k);
                        }
                        lemma_reparent(pm, self.rank@, root_j as int, root_i as int);
                    }
                } else {
                    proof {
                        lemma_reparent(pm, rm, root_j as int, root_i as int);
                    }
                }
                if p_j {
                    BitPack::toggle(self.parity.as_mut_slice(), root_i);
                }
                proof {
                    assert forall|c: int| 0 <= c < qm.len() * 64 implies bit_get(self.parity@, c)
                        == (if c == root_i as int {
                        bit_get(qm, root_i as int) != bit_get(qm, root_j as int)
                    } else {
                        bit_get(qm, c)
                    }) by {}
                    self.lemma_union_post(*old(self), m0, pm, rm, qm, i, j, root_i, root_j, true);
                }
            }
            true
        } else {
            proof {
                assert(self.abs() =~= model_union(m0, i as int, j as int));
            }
            false
        }
    }

    /// Common postcondition proof for the two merge branches of `union`:
    /// relates the final concrete state to `model_union` of the model before
    /// the call.
    proof fn lemma_union_post(
        &self,
        pre: Self,
        m0: DsuModel,
        pm: Seq<usize>,
        rm: Seq<usize>,
        qm: Seq<u64>,
        i: usize,
        j: usize,
        root_i: usize,
        root_j: usize,
        i_wins: bool,
    )
        requires
            pre.wf(),
            i < pre.n_spec(),
            j < pre.n_spec(),
            m0 == pre.abs(),
            rank_ok(pm, rm),
            pm.len() <= usize::MAX,
            pm.len() == pre.n_spec(),
            rm.len() == pre.n_spec(),
            qm.len() == (pm.len() + 63) / 64,
            root_i as int == root_of(pm, rm, i as int),
            root_j as int == root_of(pm, rm, j as int),
            root_i != root_j,
            root_of(pm, rm, i as int) == m0.roots[i as int],
            root_of(pm, rm, j as int) == m0.roots[j as int],
            forall|k: int| 0 <= k < pm.len() ==> root_of(pm, rm, k) == m0.roots[k],
            forall|k: int| 0 <= k < pm.len() ==> rm[k] as int == m0.rank[k],
            forall|k: int| 0 <= k < pm.len() ==> bit_get(qm, k) == m0.par[k],
            count_roots(pm) == count_roots(pre.parent_view()),
            i_wins ==> rm[root_i as int] >= rm[root_j as int],
            !i_wins ==> rm[root_i as int] < rm[root_j as int],
            ({
                let w: int = if i_wins {
                    root_i as int
                } else {
                    root_j as int
                };
                let l: int = if i_wins {
                    root_j as int
                } else {
                    root_i as int
                };
                &&& self.parent_view() == pm.update(l, (w as usize))
                &&& rank_ok(self.parent_view(), self.rank_seq())
                &&& (if i_wins && rm[root_i as int] == rm[root_j as int] {
                    self.rank_seq() =~= rm.update(root_i as int, (rm[root_i as int] + 1) as usize)
                        && rm[root_i as int] + 1 < pm.len()
                } else {
                    self.rank_seq() == rm
                })
                &&& forall|k: int|
                    0 <= k < pm.len() ==> root_of(self.parent_view(), self.rank_seq(), k) == (if
                    root_of(pm, rm, k) == l {
                        w
                    } else {
                        root_of(pm, rm, k)
                    })
                &&& count_roots(self.parent_view()) == count_roots(pm) - 1
                &&& self.parity_seq().len() == qm.len()
                &&& forall|c: int|
                    0 <= c < qm.len() * 64 ==> bit_get(self.parity_seq(), c) == (if c == w {
                        bit_get(qm, w) != bit_get(qm, l)
                    } else {
                        bit_get(qm, c)
                    })
            }),
        ensures
            self.wf(),
            self.n_spec() == pre.n_spec(),
            self.abs() == model_union(m0, i as int, j as int),
    {
        let n: int = pm.len() as int;
        let w: int = if i_wins {
            root_i as int
        } else {
            root_j as int
        };
        let l: int = if i_wins {
            root_j as int
        } else {
            root_i as int
        };
        lemma_root_of_is_root(pm, rm, i as int);
        lemma_root_of_is_root(pm, rm, j as int);
        assert(n <= qm.len() * 64);
        let ru: int = m0.roots[i as int];
        let rv: int = m0.roots[j as int];
        assert(ru == root_i as int && rv == root_j as int);
        assert(m0.rank[ru] == rm[ru] as int && m0.rank[rv] == rm[rv] as int);
        assert(i_wins <==> !(m0.rank[ru] < m0.rank[rv]));
        let mu = model_union(m0, i as int, j as int);
        assert(mu.par == m0.par.update(w, m0.par[ru] != m0.par[rv]));
        assert(self.wf()) by {
            assert(forall|k: int| 0 <= k < n ==> (#[trigger] rm[k]) + count_roots(pm) <= n);
            assert(count_roots(self.parent_view()) == count_roots(pm) - 1);
            if i_wins && rm[root_i as int] == rm[root_j as int] {
                assert(forall|k: int|
                    0 <= k < n ==> (#[trigger] self.rank_seq()[k]) + count_roots(
                        self.parent_view(),
                    ) <= n);
            }
        }
        assert forall|k: int| 0 <= k < n implies self.abs().roots[k] == mu.roots[k] by {
            assert(root_of(self.parent_view(), self.rank_seq(), k) == (if root_of(pm, rm, k) == l {
                w
            } else {
                root_of(pm, rm, k)
            }));
            assert(root_of(pm, rm, k) == m0.roots[k]);
        }
        assert(self.abs().roots =~= mu.roots);
        assert forall|k: int| 0 <= k < n implies self.abs().rank[k] == mu.rank[k] by {
            if i_wins {
                if rm[root_i as int] == rm[root_j as int] {
                    assert(mu.rank == m0.rank.update(ru, m0.rank[ru] + 1));
                    assert(self.rank_seq()[k] == rm.update(
                        root_i as int,
                        (rm[root_i as int] + 1) as usize,
                    )[k]);
                    if k == ru {
                        assert(self.rank_seq()[k] as int == rm[root_i as int] + 1);
                    } else {
                        assert(self.rank_seq()[k] == rm[k]);
                    }
                } else {
                    assert(mu.rank == m0.rank);
                    assert(self.rank_seq() == rm);
                }
            } else {
                assert(mu.rank == m0.rank);
                assert(self.rank_seq() == rm);
            }
        }
        assert(self.abs().rank =~= mu.rank);
        assert forall|k: int| 0 <= k < n implies self.abs().par[k] == mu.par[k] by {
            assert(bit_get(self.parity_seq(), k) == (if k == w {
                bit_get(qm, w) != bit_get(qm, l)
            } else {
                bit_get(qm, k)
            }));
        }
        assert(self.abs().par =~= mu.par);
        assert(self.abs() =~= mu);
    }

    /// The concrete rank table.
    pub closed spec fn rank_seq(&self) -> Seq<usize> {
        self.rank@
    }

    /// The concrete parity words.
    pub closed spec fn parity_seq(&self) -> Seq<u64> {
        self.parity@
    }

    /// Reads the parity bit stored at node `i` (meaningful when `i` is a
    /// cluster root).
    pub fn parity_bit(&self, i: usize) -> (b: bool)
        requires
            self.wf(),
            i < self.n_spec(),
        ensures
            b == self.abs().par[i as int],
    {
        proof {
            assert(self.parity@.len() * 64 >= self.n_spec());
        }
        BitPack::get(self.parity.as_slice(), i)
    }

    /// Sets the parity of the cluster containing `i`.
    pub fn set_parity(&mut self, i: usize, is_odd: bool)
        requires
            old(self).wf(),
            i < old(self).n_spec(),
        ensures
            final(self).wf(),
            final(self).n_spec() == old(self).n_spec(),
            final(self).abs() == model_set_parity(old(self).abs(), i as int, is_odd),
    {
        let ghost m0 = old(self).abs();
        let root = self.find(i);
        proof {
            assert(self.parity@.len() * 64 >= self.n_spec());
        }
        BitPack::set(self.parity.as_mut_slice(), root, is_odd);
        proof {
            assert(self.abs().roots =~= m0.roots);
            assert(self.abs().rank =~= m0.rank);
            assert(self.abs().par =~= model_set_parity(m0, i as int, is_odd).par);
            assert(self.abs() =~= model_set_parity(m0, i as int, is_odd));
        }
    }

    /// Toggles the parity of the cluster containing `i`.
    pub fn toggle_parity(&mut self, i: usize)
        requires
            old(self).wf(),
            i < old(self).n_spec(),
        ensures
            final(self).wf(),
            final(self).n_spec() == old(self).n_spec(),
            final(self).abs() == model_toggle(old(self).abs(), i as int),
    {
        let ghost m0 = old(self).abs();
        let root = self.find(i);
        proof {
            assert(self.parity@.len() * 64 >= self.n_spec());
        }
        BitPack::toggle(self.parity.as_mut_slice(), root);
        proof {
            assert(self.abs().roots =~= m0.roots);
            assert(self.abs().rank =~= m0.rank);
            assert(self.abs().par =~= model_toggle(m0, i as int).par);
            assert(self.abs() =~= model_toggle(m0, i as int));
        }
    }
}

} // verus!
