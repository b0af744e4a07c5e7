//! Bounding-volume hierarchy over the triangles of a mesh.
//!
//! The tree is an arena of nodes in one flat array. A node is a leaf when its
//! `triangle_count` is non-zero; it then owns the contiguous run
//! `[left_or_first, left_or_first + triangle_count)` of the permutation array
//! `triangle_indices`. A branch node stores the arena index of its left child
//! in `left_or_first`, and the right child always sits at `left_or_first + 1`.
//!
//! Subdivision decisions (which triangles fall on which side of a split
//! plane) depend on floating-point centroids and are taken by the caller; the
//! tree itself guarantees the structural invariants: the runs of the leaves
//! lay the permutation array end to end, and the permutation array holds
//! every triangle id exactly once.

use crate::identity_perm;
use crate::lemma_identity_no_duplicates;
use crate::lemma_vec_seq_fits;
use vstd::prelude::*;

verus! {

/// One arena slot of the hierarchy.
#[derive(Clone, Copy, Debug)]
pub struct BvhNode {
    /// Index of the left child for a branch; first owned slot of the
    /// permutation array for a leaf.
    pub left_or_first: usize,
    /// Zero for a branch; the length of the owned run for a leaf.
    pub triangle_count: usize,
}

/// Why a mesh descriptor was rejected.
#[derive(Clone, Copy, Debug, PartialEq, Eq)]
pub enum MeshError {
    /// The vertex buffer is empty.
    NoVertices,
    /// The index buffer is empty.
    NoIndices,
    /// The index buffer length is not a multiple of three.
    IndicesNotTriples,
    /// Some corner index points past the vertex buffer.
    IndexOutOfRange,
}

/// Structural soundness of one node of the arena, relative to the covered
/// spans: a leaf states its span directly, a branch points at two children
/// whose spans cut the parent's span in two adjacent, non-empty pieces.
pub open spec fn node_ok(
    nodes: Seq<BvhNode>,
    spans: Seq<(int, int)>,
    node_count: int,
    n: int,
    i: int,
) -> bool {
    let f = spans[i].0;
    let c = spans[i].1;
    &&& 0 <= f
    &&& f + c <= n
    &&& c >= 1
    &&& if nodes[i].triangle_count == 0 {
        let l = nodes[i].left_or_first as int;
        &&& i < l
        &&& l + 1 < node_count
        &&& spans[l].0 == f
        &&& spans[l + 1].0 == f + spans[l].1
        &&& spans[l].1 + spans[l + 1].1 == c
    } else {
        &&& nodes[i].left_or_first as int == f
        &&& nodes[i].triangle_count as int == c
    }
}

/// Sum of `triangle_count` over the first `k` arena slots. Branch nodes
/// contribute zero, so this adds up the triangles owned by leaves.
pub open spec fn tc_sum(nodes: Seq<BvhNode>, k: int) -> int
    decreases k,
{
    if k <= 0 {
        0
    } else {
        tc_sum(nodes, k - 1) + nodes[k - 1].triangle_count
    }
}

/// Number of leaves among the first `k` arena slots.
pub open spec fn leaf_cnt(nodes: Seq<BvhNode>, k: int) -> int
    decreases k,
{
    if k <= 0 {
        0
    } else {
        leaf_cnt(nodes, k - 1) + if nodes[k - 1].triangle_count > 0 {
            1int
        } else {
            0int
        }
    }
}

/// Swapping two slots of a sequence leaves its multiset of values unchanged.
proof fn lemma_swap_multiset(s: Seq<usize>, i: int, j: int)
    requires
        0 <= i < s.len(),
        0 <= j < s.len(),
    ensures
        s.update(i, s[j]).update(j, s[i]).to_multiset() == s.to_multiset(),
{
    broadcast use vstd::seq_lib::to_multiset_update;
    broadcast use vstd::seq_lib::group_to_multiset_ensures;

    if i == j {
        assert(s.update(i, s[j]).update(j, s[i]) =~= s);
    } else {
        let s1 = s.update(i, s[j]);
        assert(s1[j] == s[j]);
        assert(s1.update(j, s[i]).to_multiset() =~= s.to_multiset());
    }
}

/// Two arenas that agree slot by slot below `k` have the same prefix sums.
proof fn lemma_sum_prefix_agree(a: Seq<BvhNode>, b: Seq<BvhNode>, k: int)
    requires
        0 <= k <= a.len(),
        k <= b.len(),
        forall|i: int| 0 <= i < k ==> a[i] == b[i],
    ensures
        tc_sum(a, k) == tc_sum(b, k),
        leaf_cnt(a, k) == leaf_cnt(b, k),
    decreases k,
{
    if k > 0 {
        lemma_sum_prefix_agree(a, b, k - 1);
    }
}

/// How replacing one arena slot moves the prefix sums.
proof fn lemma_sum_update(s: Seq<BvhNode>, k: int, i: int, v: BvhNode)
    requires
        0 <= i < s.len(),
        0 <= k <= s.len(),
    ensures
        i < k ==> tc_sum(s.update(i, v), k) == tc_sum(s, k) - s[i].triangle_count
            + v.triangle_count,
        i >= k ==> tc_sum(s.update(i, v), k) == tc_sum(s, k),
        i < k ==> leaf_cnt(s.update(i, v), k) == leaf_cnt(s, k) - (if s[i].triangle_count > 0 {
            1int
        } else {
            0int
        }) + (if v.triangle_count > 0 {
            1int
        } else {
            0int
        }),
        i >= k ==> leaf_cnt(s.update(i, v), k) == leaf_cnt(s, k),
    decreases k,
{
    if k > 0 {
        lemma_sum_update(s, k - 1, i, v);
    }
}

/// Every leaf holds at least one triangle, so there are never more leaves
/// than triangles owned.
proof fn lemma_leaf_cnt_le_tc_sum(s: Seq<BvhNode>, k: int)
    requires
        0 <= k <= s.len(),
    ensures
        leaf_cnt(s, k) <= tc_sum(s, k),
    decreases k,
{
    if k > 0 {
        lemma_leaf_cnt_le_tc_sum(s, k - 1);
    }
}

/// A node that was sound stays sound when the arena grows, as long as its
/// own slot and the spans below the old bound are untouched.
proof fn lemma_node_ok_grow(
    nodes: Seq<BvhNode>,
    spans: Seq<(int, int)>,
    nc: int,
    nodes2: Seq<BvhNode>,
    spans2: Seq<(int, int)>,
    nc2: int,
    n: int,
    i: int,
)
    requires
        node_ok(nodes, spans, nc, n, i),
        0 <= i < nc,
        nc <= nc2,
        nc <= spans.len(),
        nc <= spans2.len(),
        forall|j: int| 0 <= j < nc ==> spans2[j] == spans[j],
        0 <= i < nodes2.len(),
        nodes2[i] == nodes[i],
    ensures
        node_ok(nodes2, spans2, nc2, n, i),
{
}

/// Two sequences of the same length that agree outside `[f, f + c)` and
/// hold the same multiset of values overall also hold the same multiset of
/// values on `[f, f + c)`.
proof fn lemma_run_multiset_preserved(u: Seq<usize>, w: Seq<usize>, f: int, c: int)
    requires
        u.len() == w.len(),
        0 <= f,
        c >= 0,
        f + c <= u.len(),
        u.to_multiset() == w.to_multiset(),
        forall|k: int| 0 <= k < u.len() && !(f <= k < f + c) ==> u[k] == w[k],
    ensures
        u.subrange(f, f + c).to_multiset() == w.subrange(f, f + c).to_multiset(),
{
    broadcast use vstd::multiset::group_multiset_axioms;

    let upre = u.subrange(0, f);
    let urun = u.subrange(f, f + c);
    let usuf = u.subrange(f + c, u.len() as int);
    let wpre = w.subrange(0, f);
    let wrun = w.subrange(f, f + c);
    let wsuf = w.subrange(f + c, w.len() as int);
    assert(u =~= (upre + urun) + usuf);
    assert(w =~= (wpre + wrun) + wsuf);
    assert(upre =~= wpre);
    assert(usuf =~= wsuf);
    vstd::seq_lib::lemma_multiset_commutative(upre + urun, usuf);
    vstd::seq_lib::lemma_multiset_commutative(upre, urun);
    vstd::seq_lib::lemma_multiset_commutative(wpre + wrun, wsuf);
    vstd::seq_lib::lemma_multiset_commutative(wpre, wrun);
    assert forall|v: usize| urun.to_multiset().count(v) == wrun.to_multiset().count(v) by {
        assert(u.to_multiset().count(v) == upre.to_multiset().count(v) + urun.to_multiset().count(
            v,
        ) + usuf.to_multiset().count(v));
        assert(w.to_multiset().count(v) == wpre.to_multiset().count(v) + wrun.to_multiset().count(
            v,
        ) + wsuf.to_multiset().count(v));
    }
    assert(urun.to_multiset() =~= wrun.to_multiset());
}

/// Two slots of the run of leaf `j` whose triangles fall on different
/// sides of the split described by `flags`.
pub open spec fn split_witness(b: Bvh, j: int, flags: Vec<bool>, k1: int, k2: int) -> bool {
    let f = b.nodes_seq()[j].left_or_first as int;
    let c = b.nodes_seq()[j].triangle_count as int;
    &&& f <= k1 < f + c
    &&& f <= k2 < f + c
    &&& flags@[b.perm()[k1] as int] != flags@[b.perm()[k2] as int]
}

/// What completeness of subdivision asks of one splitter answer: a flag
/// for every triangle, and for a leaf of more than two triangles at least
/// two slots of its run on different sides of the split.
pub open spec fn splits_every_big_leaf(b: Bvh, j: int, flags: Vec<bool>) -> bool {
    &&& flags@.len() == b.n()
    &&& (b.wf() && 0 <= j < b.num_nodes() && b.nodes_seq()[j].triangle_count > 2
        ==> exists|k1: int, k2: int| #[trigger] split_witness(b, j, flags, k1, k2))
}

/// A splitter whose every possible answer separates every leaf worth
/// splitting: under such a splitter, subdivision never stops early.
pub open spec fn always_separates<F: Fn(&Bvh, usize) -> Vec<bool>>(splitter: F) -> bool {
    forall|b: &Bvh, j: usize, flags: Vec<bool>|
        #[trigger] call_ensures(splitter, (b, j), flags) ==> splits_every_big_leaf(
            *b,
            j as int,
            flags,
        )
}

/// The spans of the leaves of the subtree rooted at arena slot `i`, read
/// off left to right.
pub open spec fn leaf_spans(nodes: Seq<BvhNode>, node_count: int, i: int) -> Seq<(int, int)>
    decreases node_count - i,
{
    if 0 <= i < node_count && nodes[i].triangle_count == 0 && i < nodes[i].left_or_first as int
        && nodes[i].left_or_first as int + 1 < node_count {
        leaf_spans(nodes, node_count, nodes[i].left_or_first as int) + leaf_spans(
            nodes,
            node_count,
            nodes[i].left_or_first as int + 1,
        )
    } else if 0 <= i < node_count {
        seq![(nodes[i].left_or_first as int, nodes[i].triangle_count as int)]
    } else {
        Seq::empty()
    }
}

/// The spans lie end to end: the first starts at `first`, each next one
/// starts where the previous ended, and together they cover `count` slots.
pub open spec fn tiles(spans: Seq<(int, int)>, first: int, count: int) -> bool
    decreases spans.len(),
{
    if spans.len() == 0 {
        count == 0
    } else {
        &&& spans[0].0 == first
        &&& spans[0].1 >= 0
        &&& tiles(spans.drop_first(), first + spans[0].1, count - spans[0].1)
    }
}

/// The slices of `v` that `spans` select, one sequence per span.
pub open spec fn span_slices(v: Seq<usize>, spans: Seq<(int, int)>) -> Seq<Seq<usize>> {
    spans.map_values(|s: (int, int)| v.subrange(s.0, s.0 + s.1))
}

proof fn lemma_tiles_nonneg(spans: Seq<(int, int)>, first: int, count: int)
    requires
        tiles(spans, first, count),
    ensures
        count >= 0,
    decreases spans.len(),
{
    if spans.len() > 0 {
        lemma_tiles_nonneg(spans.drop_first(), first + spans[0].1, count - spans[0].1);
    }
}

/// Tilings of adjacent stretches concatenate to a tiling of their union.
proof fn lemma_tiles_concat(a: Seq<(int, int)>, b: Seq<(int, int)>, first: int, c1: int, c2: int)
    requires
        tiles(a, first, c1),
        tiles(b, first + c1, c2),
    ensures
        tiles(a + b, first, c1 + c2),
    decreases a.len(),
{
    if a.len() == 0 {
        assert(a + b =~= b);
    } else {
        lemma_tiles_concat(a.drop_first(), b, first + a[0].1, c1 - a[0].1, c2);
        assert((a + b).drop_first() =~= a.drop_first() + b);
        assert((a + b)[0] == a[0]);
    }
}

/// The slices selected by a tiling of `[first, first + count)` lay the
/// stretch `v[first .. first + count]` end to end.
proof fn lemma_tiles_slices(v: Seq<usize>, spans: Seq<(int, int)>, first: int, count: int)
    requires
        tiles(spans, first, count),
        0 <= first,
        first + count <= v.len(),
    ensures
        span_slices(v, spans).flatten() =~= v.subrange(first, first + count),
    decreases spans.len(),
{
    if spans.len() == 0 {
        assert(span_slices(v, spans) =~= Seq::<Seq<usize>>::empty());
        assert(v.subrange(first, first) =~= Seq::<usize>::empty());
    } else {
        let s0 = spans[0];
        lemma_tiles_nonneg(spans.drop_first(), first + s0.1, count - s0.1);
        lemma_tiles_slices(v, spans.drop_first(), first + s0.1, count - s0.1);
        assert(span_slices(v, spans).drop_first() =~= span_slices(v, spans.drop_first()));
        assert(span_slices(v, spans).flatten() =~= v.subrange(s0.0, s0.0 + s0.1) + span_slices(
            v,
            spans.drop_first(),
        ).flatten());
        assert(v.subrange(first, first + count) =~= v.subrange(first, first + s0.1) + v.subrange(
            first + s0.1,
            first + count,
        ));
    }
}

/// Bounding-volume hierarchy: arena of nodes plus the permutation of
/// triangle ids that the leaves own in contiguous runs. The mesh index
/// buffer rides along, validated once at construction.
pub struct Bvh {
    vertex_count: usize,
    indices: Vec<u32>,
    triangle_indices: Vec<usize>,
    nodes: Vec<BvhNode>,
    node_count: usize,
    spans: Ghost<Seq<(int, int)>>,
}

impl Bvh {
    /// Number of triangles.
    pub closed spec fn n(&self) -> int {
        self.triangle_indices@.len() as int
    }

    /// The arena, as a sequence.
    pub closed spec fn nodes_seq(&self) -> Seq<BvhNode> {
        self.nodes@
    }

    /// Number of arena slots in use.
    pub closed spec fn num_nodes(&self) -> int {
        self.node_count as int
    }

    /// The permutation array of triangle ids.
    pub closed spec fn perm(&self) -> Seq<usize> {
        self.triangle_indices@
    }

    /// The span `(first, count)` of the permutation array that each used
    /// node covers. For a leaf these repeat the node's own fields; for a
    /// branch they name the run its subtree covers.
    pub closed spec fn spans(&self) -> Seq<(int, int)> {
        self.spans@
    }

    /// The validated index buffer, three corners per triangle.
    pub closed spec fn indices_seq(&self) -> Seq<u32> {
        self.indices@
    }

    /// Size of the vertex buffer the index buffer was validated against.
    pub closed spec fn num_vertices_spec(&self) -> int {
        self.vertex_count as int
    }

    /// The mesh descriptor held is well formed.
    pub closed spec fn mesh_ok(&self) -> bool {
        &&& self.vertex_count > 0
        &&& self.n() >= 1
        &&& self.indices@.len() == 3 * self.n()
        &&& forall|k: int|
            0 <= k < self.indices@.len() ==> (#[trigger] self.indices@[k]) < self.vertex_count
    }

    /// The permutation array is a permutation of `0 .. n`.
    pub closed spec fn perm_ok(&self) -> bool {
        &&& self.perm().to_multiset() == identity_perm(self.n()).to_multiset()
        &&& forall|k: int| 0 <= k < self.n() ==> (#[trigger] self.perm()[k]) < self.n()
    }

    /// Well-formedness of the whole tree.
    pub closed spec fn wf(&self) -> bool {
        &&& self.mesh_ok()
        &&& self.perm_ok()
        &&& self.nodes@.len() == 2 * self.n() + 1
        &&& 1 <= self.num_nodes() <= self.nodes@.len()
        &&& self.spans@.len() == self.num_nodes()
        &&& self.spans@[0] == (0int, self.n())
        &&& forall|i: int|
            0 <= i < self.num_nodes() ==> node_ok(
                self.nodes@,
                self.spans@,
                self.num_nodes(),
                self.n(),
                i,
            )
        &&& tc_sum(self.nodes@, self.num_nodes()) == self.n()
        &&& self.num_nodes() == 2 * leaf_cnt(self.nodes@, self.num_nodes()) - 1
    }

    /// What validation of a mesh descriptor reports: the first failing check,
    /// or nothing when the descriptor is sound.
    pub open spec fn mesh_check(vertex_count: int, indices: Seq<u32>) -> Option<MeshError> {
        if vertex_count <= 0 {
            Some(MeshError::NoVertices)
        } else if indices.len() == 0 {
            Some(MeshError::NoIndices)
        } else if indices.len() % 3 != 0 {
            Some(MeshError::IndicesNotTriples)
        } else if exists|k: int| 0 <= k < indices.len() && (#[trigger] indices[k]) >= vertex_count {
            Some(MeshError::IndexOutOfRange)
        } else {
            None
        }
    }

    /// Build the root-only tree over a mesh descriptor: the root leaf covers
    /// all `n = indices.len() / 3` triangles and the permutation starts as
    /// the identity. Rejects descriptors with no vertices, no indices, a
    /// ragged index buffer, or an out-of-range corner.
    pub fn new(vertex_count: usize, indices: Vec<u32>) -> (r: Result<Bvh, MeshError>)
        ensures
            match r {
                Ok(b) => {
                    &&& Self::mesh_check(vertex_count as int, indices@) is None
                    &&& b.wf()
                    &&& b.indices_seq() == indices@
                    &&& b.num_vertices_spec() == vertex_count as int
                    &&& b.n() == indices@.len() / 3
                    &&& b.num_nodes() == 1
                    &&& b.perm() =~= identity_perm(b.n())
                    &&& b.nodes_seq()[0].left_or_first == 0
                    &&& b.nodes_seq()[0].triangle_count as int == b.n()
                },
                Err(e) => Self::mesh_check(vertex_count as int, indices@) == Some(e),
            },
    {
        if vertex_count == 0 {
            return Err(MeshError::NoVertices);
        }
        if indices.len() == 0 {
            return Err(MeshError::NoIndices);
        }
        if indices.len() % 3 != 0 {
            return Err(MeshError::IndicesNotTriples);
        }
        let mut k: usize = 0;
        while k < indices.len()
            invariant
                k <= indices@.len(),
                vertex_count > 0,
                indices@.len() > 0,
                indices@.len() % 3 == 0,
                forall|j: int| 0 <= j < k ==> (#[trigger] indices@[j]) < vertex_count,
            decreases indices@.len() - k,
        {
            if indices[k] as usize >= vertex_count {
                assert(0 <= k < indices@.len() && (#[trigger] indices@[k as int]) >= vertex_count);
                return Err(MeshError::IndexOutOfRange);
            }
            k += 1;
        }
        let n = indices.len() / 3;
        assert(3 * n == indices@.len());
        let mut triangle_indices: Vec<usize> = Vec::new();
        let mut t: usize = 0;
        while t < n
            invariant
                t <= n,
                triangle_indices@.len() == t,
                forall|j: int| 0 <= j < t ==> (#[trigger] triangle_indices@[j]) == j,
            decreases n - t,
        {
            triangle_indices.push(t);
            t += 1;
        }
        let nodes: Vec<BvhNode> = vec![BvhNode { left_or_first: 0, triangle_count: 0 }; 2 * n + 1];
        let ghost spans0: Seq<(int, int)> = seq![(0int, n as int)];
        let mut bvh = Bvh {
            vertex_count,
            indices,
            triangle_indices,
            nodes,
            node_count: 1,
            spans: Ghost(spans0),
        };
        bvh.nodes[0] = BvhNode { left_or_first: 0, triangle_count: n };
        proof {
            assert(bvh.perm() =~= identity_perm(bvh.n()));
            assert(tc_sum(bvh.nodes@, 0) == 0);
            assert(leaf_cnt(bvh.nodes@, 0) == 0);
            assert(tc_sum(bvh.nodes@, 1) == n);
            assert(leaf_cnt(bvh.nodes@, 1) == 1);
            assert(node_ok(bvh.nodes@, bvh.spans@, 1, n as int, 0));
        }
        Ok(bvh)
    }

    /// Number of triangles the tree was built over.
    pub fn num_triangles(&self) -> (r: usize)
        ensures
            r as int == self.n(),
    {
        self.triangle_indices.len()
    }

    /// Number of arena slots in use.
    pub fn used_nodes(&self) -> (r: usize)
        ensures
            r as int == self.num_nodes(),
    {
        self.node_count
    }

    /// Size of the vertex buffer the mesh was validated against.
    pub fn num_vertices(&self) -> (r: usize)
        ensures
            r as int == self.num_vertices_spec(),
    {
        self.vertex_count
    }

    /// Read one node of the arena.
    pub fn node(&self, i: usize) -> (r: BvhNode)
        requires
            i < self.num_nodes(),
            self.num_nodes() <= self.nodes_seq().len(),
        ensures
            r == self.nodes_seq()[i as int],
    {
        self.nodes[i]
    }

    /// Read one slot of the permutation array.
    pub fn triangle_index(&self, k: usize) -> (r: usize)
        requires
            self.wf(),
            k < self.n(),
        ensures
            r == self.perm()[k as int],
            r < self.n(),
    {
        self.triangle_indices[k]
    }

    /// Read one corner of one triangle of the validated index buffer.
    pub fn corner(&self, tri: usize, c: usize) -> (r: u32)
        requires
            self.wf(),
            tri < self.n(),
            c < 3,
        ensures
            r == self.indices_seq()[3 * tri + c],
            (r as int) < self.num_vertices_spec(),
    {
        let len = self.indices.len();
        assert(3 * tri + c < len);
        self.indices[3 * tri + c]
    }

    /// Whether the node still holds enough triangles to be worth splitting:
    /// subdivision stops at leaves of at most two triangles.
    pub fn wants_split(&self, i: usize) -> (r: bool)
        requires
            i < self.num_nodes(),
            self.num_nodes() <= self.nodes_seq().len(),
        ensures
            r <==> self.nodes_seq()[i as int].triangle_count > 2,
    {
        self.nodes[i].triangle_count > 2
    }

    /// Try to split a leaf in two. The caller supplies, per triangle id, the
    /// side of the split plane its centroid falls on (`true` = below, the
    /// left side). The leaf's run of the permutation array is partitioned in
    /// place, left-side triangles first. When both sides are non-empty, the
    /// next two arena slots become the left and right child (right always at
    /// left + 1), the node turns into a branch, and the children's indices
    /// are returned; when the flags put every triangle on one side, the node
    /// stays a leaf and nothing but the order inside its run has changed.
    pub fn subdivide_node(&mut self, node: usize, go_left: &Vec<bool>) -> (r: Option<
        (usize, usize),
    >)
        requires
            old(self).wf(),
            (node as int) < old(self).num_nodes(),
            old(self).nodes_seq()[node as int].triangle_count >= 2,
            go_left@.len() == old(self).n(),
        ensures
            final(self).wf(),
            final(self).n() == old(self).n(),
            final(self).indices_seq() == old(self).indices_seq(),
            final(self).num_vertices_spec() == old(self).num_vertices_spec(),
            final(self).perm().to_multiset() == old(self).perm().to_multiset(),
            old(self).spans()[node as int].0 == old(self).nodes_seq()[node as int].left_or_first
                as int,
            old(self).spans()[node as int].1 == old(self).nodes_seq()[node as int].triangle_count
                as int,
            forall|k: int|
                0 <= k < old(self).n() && !(old(self).spans()[node as int].0 <= k < old(self).spans()[node as int].0 + old(self).spans()[node as int].1) ==> final(self).perm()[k] == old(self).perm()[k],
            ({
                let f = old(self).spans()[node as int].0;
                let c = old(self).spans()[node as int].1;
                match r {
                    None => {
                        &&& final(self).nodes_seq() == old(self).nodes_seq()
                        &&& final(self).num_nodes() == old(self).num_nodes()
                        &&& final(self).spans() == old(self).spans()
                        &&& ((forall|k: int|
                            f <= k < f + c ==> go_left@[#[trigger] final(self).perm()[k] as int])
                            || (forall|k: int|
                            f <= k < f + c ==> !go_left@[#[trigger] final(self).perm()[k] as int]))
                    },
                    Some((l, rt)) => {
                        let a = final(self).spans()[l as int].1;
                        &&& l as int == old(self).num_nodes()
                        &&& rt == l + 1
                        &&& final(self).num_nodes() == old(self).num_nodes() + 2
                        &&& final(self).spans() =~= old(self).spans() + seq![
                            (f, a),
                            (f + a, c - a),
                        ]
                        &&& 1 <= a < c
                        &&& final(self).nodes_seq()[node as int].triangle_count == 0
                        &&& final(self).nodes_seq()[node as int].left_or_first == l
                        &&& forall|j: int|
                            0 <= j < old(self).num_nodes() && j != node ==> final(self).nodes_seq()[j] == old(self).nodes_seq()[j]
                        &&& final(self).nodes_seq()[l as int].left_or_first as int == f
                        &&& final(self).nodes_seq()[l as int].triangle_count as int == a
                        &&& final(self).nodes_seq()[rt as int].left_or_first as int == f + a
                        &&& final(self).nodes_seq()[rt as int].triangle_count as int == c - a
                        &&& final(self).nodes_seq()[l as int].triangle_count as int
                            + final(self).nodes_seq()[rt as int].triangle_count as int
                            == old(self).nodes_seq()[node as int].triangle_count as int
                        &&& forall|k: int|
                            f <= k < f + a ==> go_left@[#[trigger] final(self).perm()[k] as int]
                        &&& forall|k: int|
                            f + a <= k < f + c ==> !go_left@[#[trigger] final(self).perm()[k] as int]
                    },
                }
            }),
    {
        let ghost n = self.n();
        let nd = self.nodes[node];
        let first = nd.left_or_first;
        let count = nd.triangle_count;
        let ghost f = first as int;
        let ghost c = count as int;
        proof {
            assert(node_ok(self.nodes@, self.spans@, self.num_nodes(), n, node as int));
            assert(self.spans@[node as int] == (f, c));
        }
        let n_exec = self.triangle_indices.len();
        let mut i = first;
        let mut end = first + count;
        while i < end
            invariant
                f <= i <= end <= f + c,
                0 <= f,
                f + c <= n,
                go_left@.len() == n,
                n == old(self).n(),
                self.nodes@ == old(self).nodes@,
                self.node_count == old(self).node_count,
                self.spans@ == old(self).spans@,
                self.indices@ == old(self).indices@,
                self.vertex_count == old(self).vertex_count,
                self.triangle_indices@.len() == n,
                self.triangle_indices@.to_multiset() == old(self).triangle_indices@.to_multiset(),
                forall|k: int|
                    0 <= k < n && !(f <= k < f + c) ==> self.triangle_indices@[k] == old(self).triangle_indices@[k],
                forall|k: int| 0 <= k < n ==> (#[trigger] self.triangle_indices@[k]) < n,
                forall|k: int|
                    f <= k < i ==> go_left@[#[trigger] self.triangle_indices@[k] as int],
                forall|k: int|
                    end <= k < f + c ==> !go_left@[#[trigger] self.triangle_indices@[k] as int],
            decreases end - i,
        {
            let t = self.triangle_indices[i];
            if go_left[t] {
                i += 1;
            } else {
                let ghost before = self.triangle_indices@;
                let a = self.triangle_indices[i];
                let b = self.triangle_indices[end - 1];
                self.triangle_indices[i] = b;
                self.triangle_indices[end - 1] = a;
                proof {
                    lemma_swap_multiset(before, i as int, end - 1);
                    assert(self.triangle_indices@ =~= before.update(
                        i as int,
                        before[end - 1],
                    ).update(end - 1, before[i as int]));
                }
                end -= 1;
            }
        }
        let left_count = i - first;
        if left_count == 0 || left_count == count {
            proof {
                assert(self.wf());
            }
            return None;
        }
        let l = self.node_count;
        let ghost old_nodes = self.nodes@;
        let ghost nc = self.num_nodes();
        let ghost leaves = leaf_cnt(old_nodes, nc);
        proof {
            lemma_leaf_cnt_le_tc_sum(old_nodes, nc);
            assert(leaves <= n);
            assert(nc == 2 * leaves - 1);
            assert(nc + 2 <= 2 * n + 1);
        }
        let cap = self.nodes.len();
        assert(l + 2 <= cap);
        let right_count = count - left_count;
        self.nodes[l] = BvhNode { left_or_first: first, triangle_count: left_count };
        self.nodes[l + 1] = BvhNode { left_or_first: i, triangle_count: right_count };
        self.nodes[node] = BvhNode { left_or_first: l, triangle_count: 0 };
        self.node_count = l + 2;
        proof {
            self.spans@ = self.spans@.push((f, left_count as int)).push(
                ((f + left_count) as int, right_count as int),
            );
            let a = left_count as int;
            let b = right_count as int;
            let np = self.nodes@;
            let sp = self.spans@;
            assert(np =~= old_nodes.update(l as int, old_nodes[l as int]).update(
                l + 1,
                old_nodes[l + 1],
            ).update(l as int, np[l as int]).update(l + 1, np[l + 1]).update(
                node as int,
                np[node as int],
            ));
            // prefix sums over the first nc slots: only the split node changed there
            let n1 = old_nodes.update(node as int, np[node as int]);
            lemma_sum_update(old_nodes, nc, node as int, np[node as int]);
            lemma_sum_prefix_agree(n1, np, nc);
            assert(tc_sum(np, nc) == n - c);
            assert(leaf_cnt(np, nc) == leaves - 1);
            assert(tc_sum(np, nc + 1) == tc_sum(np, nc) + np[nc].triangle_count);
            assert(tc_sum(np, nc + 2) == tc_sum(np, nc + 1) + np[nc + 1].triangle_count);
            assert(tc_sum(np, nc + 2) == n);
            assert(leaf_cnt(np, nc + 1) == leaf_cnt(np, nc) + 1);
            assert(leaf_cnt(np, nc + 2) == leaf_cnt(np, nc + 1) + 1);
            assert(self.num_nodes() == 2 * leaf_cnt(np, nc + 2) - 1);
            // every node of the grown arena is sound
            assert forall|j: int| 0 <= j < nc + 2 implies #[trigger] node_ok(np, sp, nc + 2, n, j) by {
                if j == node as int {
                    assert(node_ok(np, sp, nc + 2, n, j));
                } else if j == l as int || j == l + 1 {
                    assert(node_ok(np, sp, nc + 2, n, j));
                } else {
                    assert(node_ok(old_nodes, old(self).spans@, nc, n, j));
                    lemma_node_ok_grow(
                        old_nodes,
                        old(self).spans@,
                        nc,
                        np,
                        sp,
                        nc + 2,
                        n,
                        j,
                    );
                }
            }
            assert(self.wf());
        }
        Some((l, l + 1))
    }
    /// The leaves of the subtree rooted at a sound node tile the node's span.
    proof fn lemma_subtree_tiles(&self, i: int)
        requires
            self.wf(),
            0 <= i < self.num_nodes(),
        ensures
            tiles(
                leaf_spans(self.nodes_seq(), self.num_nodes(), i),
                self.spans()[i].0,
                self.spans()[i].1,
            ),
        decreases self.num_nodes() - i,
    {
        let nodes = self.nodes_seq();
        let nc = self.num_nodes();
        assert(node_ok(nodes, self.spans@, nc, self.n(), i));
        if nodes[i].triangle_count == 0 {
            let l = nodes[i].left_or_first as int;
            self.lemma_subtree_tiles(l);
            self.lemma_subtree_tiles(l + 1);
            lemma_tiles_concat(
                leaf_spans(nodes, nc, l),
                leaf_spans(nodes, nc, l + 1),
                self.spans@[i].0,
                self.spans@[l].1,
                self.spans@[l + 1].1,
            );
        } else {
            let f = self.spans@[i].0;
            let c = self.spans@[i].1;
            assert(leaf_spans(nodes, nc, i) =~= seq![(f, c)]);
            assert(seq![(f, c)].drop_first() =~= Seq::<(int, int)>::empty());
            assert(tiles(Seq::empty(), f + c, 0));
        }
    }

    /// Law: the leaf runs partition the triangle set. Read off in tree
    /// order, the slices of the permutation array owned by the leaves lay
    /// the whole array end to end; that array in turn holds every triangle
    /// id `0 .. n` exactly once. So no triangle is dropped by subdivision
    /// and none is handed to two sibling subtrees.
    pub proof fn lemma_leaf_partition(&self)
        requires
            self.wf(),
        ensures
            tiles(leaf_spans(self.nodes_seq(), self.num_nodes(), 0), 0, self.n()),
            span_slices(
                self.perm(),
                leaf_spans(self.nodes_seq(), self.num_nodes(), 0),
            ).flatten() == self.perm(),
            self.perm().len() == self.n(),
            self.perm().to_multiset() == identity_perm(self.n()).to_multiset(),
            self.perm().no_duplicates(),
    {
        self.lemma_subtree_tiles(0);
        lemma_tiles_slices(
            self.perm(),
            leaf_spans(self.nodes_seq(), self.num_nodes(), 0),
            0,
            self.n(),
        );
        assert(self.perm().subrange(0, self.n()) =~= self.perm());
        lemma_vec_seq_fits(&self.triangle_indices);
        lemma_identity_no_duplicates(self.n());
        let id = identity_perm(self.n());
        id.lemma_multiset_has_no_duplicates();
        self.perm().lemma_multiset_has_no_duplicates_conv();
    }

    fn candidates_rec<F: Fn(&Bvh, usize) -> bool>(&self, i: usize, box_hit: &F, out: &mut Vec<
        usize,
    >)
        requires
            self.wf(),
            (i as int) < self.num_nodes(),
            forall|b: &Bvh, j: usize| #[trigger] call_requires(*box_hit, (b, j)),
        ensures
            final(out)@.len() >= old(out)@.len(),
            final(out)@.subrange(0, old(out)@.len() as int) == old(out)@,
            final(out)@.skip(old(out)@.len() as int).to_multiset().subset_of(
                self.perm().subrange(
                    self.spans()[i as int].0,
                    self.spans()[i as int].0 + self.spans()[i as int].1,
                ).to_multiset(),
            ),
            (forall|b: &Bvh, j: usize, o: bool|
                #[trigger] call_ensures(*box_hit, (b, j), o) ==> o) ==> final(out)@.skip(
                old(out)@.len() as int,
            ) == self.perm().subrange(
                self.spans()[i as int].0,
                self.spans()[i as int].0 + self.spans()[i as int].1,
            ),
        decreases self.num_nodes() - i,
    {
        broadcast use vstd::multiset::group_multiset_axioms;

        let ghost base = out@;
        let ghost f = self.spans@[i as int].0;
        let ghost c = self.spans@[i as int].1;
        proof {
            assert(node_ok(self.nodes@, self.spans@, self.num_nodes(), self.n(), i as int));
        }
        if !box_hit(&*self, i) {
            proof {
                broadcast use vstd::seq_lib::group_to_multiset_ensures;

                assert(out@.subrange(0, base.len() as int) =~= base);
                assert(out@.skip(base.len() as int) =~= Seq::<usize>::empty());
                assert forall|v: usize|
                    Seq::<usize>::empty().to_multiset().count(v) <= self.perm().subrange(
                        f,
                        f + c,
                    ).to_multiset().count(v) by {
                    assert(!Seq::<usize>::empty().contains(v));
                }
            }
            return;
        }
        let nd = self.node(i);
        if nd.triangle_count == 0 {
            let ghost a = self.spans@[nd.left_or_first as int].1;
            proof {
                assert(node_ok(
                    self.nodes@,
                    self.spans@,
                    self.num_nodes(),
                    self.n(),
                    nd.left_or_first as int,
                ));
                assert(node_ok(
                    self.nodes@,
                    self.spans@,
                    self.num_nodes(),
                    self.n(),
                    nd.left_or_first as int + 1,
                ));
            }
            self.candidates_rec(nd.left_or_first, box_hit, out);
            let ghost mid = out@;
            self.candidates_rec(nd.left_or_first + 1, box_hit, out);
            proof {
                let added_l = mid.skip(base.len() as int);
                let added_r = out@.skip(mid.len() as int);
                assert(out@.subrange(0, base.len() as int) =~= base);
                assert(out@.skip(base.len() as int) =~= added_l + added_r);
                let run_l = self.perm().subrange(f, f + a);
                let run_r = self.perm().subrange(f + a, f + c);
                assert(self.perm().subrange(f, f + c) =~= run_l + run_r);
                vstd::seq_lib::lemma_multiset_commutative(added_l, added_r);
                vstd::seq_lib::lemma_multiset_commutative(run_l, run_r);
            }
        } else {
            let first = nd.left_or_first;
            let count = nd.triangle_count;
            let n_exec = self.num_triangles();
            assert(first + count <= n_exec);
            let mut k = first;
            let end = first + count;
            while k < end
                invariant
                    self.wf(),
                    first == f,
                    first + count == f + c,
                    first <= k <= end,
                    end == first + count,
                    f + c <= self.n(),
                    out@ == base + self.perm().subrange(f, k as int),
                decreases end - k,
            {
                let t = self.triangle_index(k);
                out.push(t);
                proof {
                    assert(out@ =~= base + self.perm().subrange(f, k + 1));
                }
                k += 1;
            }
            proof {
                assert(out@.subrange(0, base.len() as int) =~= base);
                assert(out@.skip(base.len() as int) =~= self.perm().subrange(f, f + c));
            }
        }
    }

    /// Every triangle the ray-versus-box predicate lets through, collected
    /// by descending the tree: subtrees whose box test fails are skipped
    /// whole, the runs of the leaves reached are listed in tree order. The
    /// result never repeats a triangle; and under a predicate that always
    /// passes, it is exactly the permutation array — the same triangle set
    /// a brute-force scan over all triangles visits.
    pub fn candidate_triangles<F: Fn(&Bvh, usize) -> bool>(&self, box_hit: &F) -> (r: Vec<usize>)
        requires
            self.wf(),
            forall|b: &Bvh, j: usize| #[trigger] call_requires(*box_hit, (b, j)),
        ensures
            r@.to_multiset().subset_of(identity_perm(self.n()).to_multiset()),
            r@.no_duplicates(),
            forall|k: int| 0 <= k < r@.len() ==> (#[trigger] r@[k]) < self.n(),
            (forall|b: &Bvh, j: usize, o: bool|
                #[trigger] call_ensures(*box_hit, (b, j), o) ==> o) ==> r@ == self.perm(),
    {
        broadcast use vstd::multiset::group_multiset_axioms;

        let mut out: Vec<usize> = Vec::new();
        self.candidates_rec(0, box_hit, &mut out);
        proof {
            assert(out@.skip(0) =~= out@);
            assert(self.perm().subrange(0, self.n()) =~= self.perm());
            assert(out@.to_multiset().subset_of(identity_perm(self.n()).to_multiset()));
            lemma_vec_seq_fits(&self.triangle_indices);
            lemma_identity_no_duplicates(self.n());
            identity_perm(self.n()).lemma_multiset_has_no_duplicates();
            assert forall|x: usize| out@.to_multiset().contains(x) implies out@.to_multiset().count(
                x,
            ) == 1 by {
                assert(identity_perm(self.n()).to_multiset().count(x) >= 1);
            }
            out@.lemma_multiset_has_no_duplicates_conv();
            broadcast use vstd::seq_lib::group_to_multiset_ensures;

            assert forall|k: int| 0 <= k < out@.len() implies (#[trigger] out@[k]) < self.n() by {
                assert(out@.to_multiset().count(out@[k]) >= 1);
                assert(identity_perm(self.n()).to_multiset().contains(out@[k]));
            }
        }
        out
    }

    /// Law: a leaf's covered span is exactly its own fields — the span a
    /// contract states over `spans()` is, for a leaf, the run
    /// `[left_or_first, left_or_first + triangle_count)`.
    pub proof fn lemma_leaf_span(&self, i: int)
        requires
            self.wf(),
            0 <= i < self.num_nodes(),
            self.nodes_seq()[i].triangle_count != 0,
        ensures
            self.spans()[i].0 == self.nodes_seq()[i].left_or_first as int,
            self.spans()[i].1 == self.nodes_seq()[i].triangle_count as int,
    {
        assert(node_ok(self.nodes@, self.spans@, self.num_nodes(), self.n(), i));
    }

    /// Law: the containment invariant of the hierarchy, at the index
    /// level: a branch node's span is exactly its two children's spans
    /// laid side by side, both non-empty, the right child directly at the
    /// left child's arena slot plus one.
    pub proof fn lemma_branch_spans(&self, i: int)
        requires
            self.wf(),
            0 <= i < self.num_nodes(),
            self.nodes_seq()[i].triangle_count == 0,
        ensures
            ({
                let l = self.nodes_seq()[i].left_or_first as int;
                &&& i < l
                &&& l + 1 < self.num_nodes()
                &&& self.spans()[l].0 == self.spans()[i].0
                &&& self.spans()[l + 1].0 == self.spans()[i].0 + self.spans()[l].1
                &&& self.spans()[l].1 + self.spans()[l + 1].1 == self.spans()[i].1
                &&& self.spans()[l].1 >= 1
                &&& self.spans()[l + 1].1 >= 1
            }),
    {
        let l = self.nodes_seq()[i].left_or_first as int;
        assert(node_ok(self.nodes@, self.spans@, self.num_nodes(), self.n(), i));
        assert(node_ok(self.nodes@, self.spans@, self.num_nodes(), self.n(), l));
        assert(node_ok(self.nodes@, self.spans@, self.num_nodes(), self.n(), l + 1));
    }

    fn leaf_runs_rec(&self, i: usize, out: &mut Vec<(usize, usize)>)
        requires
            self.wf(),
            (i as int) < self.num_nodes(),
        ensures
            final(out)@.map_values(|p: (usize, usize)| (p.0 as int, p.1 as int)) == old(
                out,
            )@.map_values(|p: (usize, usize)| (p.0 as int, p.1 as int)) + leaf_spans(
                self.nodes_seq(),
                self.num_nodes(),
                i as int,
            ),
        decreases self.num_nodes() - i,
    {
        proof {
            assert(node_ok(self.nodes@, self.spans@, self.num_nodes(), self.n(), i as int));
        }
        let nd = self.node(i);
        if nd.triangle_count == 0 {
            let ghost mid = *out;
            self.leaf_runs_rec(nd.left_or_first, out);
            self.leaf_runs_rec(nd.left_or_first + 1, out);
            proof {
                let f = |p: (usize, usize)| (p.0 as int, p.1 as int);
                assert(out@.map_values(f) =~= mid@.map_values(f) + (leaf_spans(
                    self.nodes_seq(),
                    self.num_nodes(),
                    nd.left_or_first as int,
                ) + leaf_spans(self.nodes_seq(), self.num_nodes(), nd.left_or_first as int + 1)));
            }
        } else {
            let ghost before = *out;
            out.push((nd.left_or_first, nd.triangle_count));
            proof {
                let f = |p: (usize, usize)| (p.0 as int, p.1 as int);
                assert(out@.map_values(f) =~= before@.map_values(f) + leaf_spans(
                    self.nodes_seq(),
                    self.num_nodes(),
                    i as int,
                ));
            }
        }
    }

    /// Build the whole hierarchy depth-first, starting from `node`. The
    /// `splitter` answers, for a leaf worth splitting, on which side of its
    /// split plane each triangle's centroid falls; everything else — the
    /// partition, the arena bookkeeping, the stop conditions — happens
    /// here, under the tree invariants. Only this node and the slots the
    /// call allocates change, only this node's run of the permutation
    /// array is reordered, and a splitter that always separates
    /// (`always_separates`) leaves no leaf of more than two triangles
    /// behind in any of them.
    pub fn build_from<F: Fn(&Bvh, usize) -> Vec<bool>>(&mut self, node: usize, splitter: &F)
        requires
            old(self).wf(),
            (node as int) < old(self).num_nodes(),
            forall|b: &Bvh, j: usize| #[trigger] call_requires(*splitter, (b, j)),
        ensures
            final(self).wf(),
            final(self).n() == old(self).n(),
            final(self).indices_seq() == old(self).indices_seq(),
            final(self).num_vertices_spec() == old(self).num_vertices_spec(),
            final(self).perm().to_multiset() == old(self).perm().to_multiset(),
            final(self).num_nodes() >= old(self).num_nodes(),
            forall|j: int|
                0 <= j < old(self).num_nodes() ==> final(self).spans()[j] == old(self).spans()[j],
            forall|j: int|
                0 <= j < old(self).num_nodes() && j != node ==> final(self).nodes_seq()[j] == old(self).nodes_seq()[j],
            forall|k: int|
                0 <= k < old(self).n() && !(old(self).spans()[node as int].0 <= k < old(self).spans()[node as int].0 + old(self).spans()[node as int].1) ==> final(self).perm()[k] == old(self).perm()[k],
            old(self).nodes_seq()[node as int].triangle_count <= 2 ==> *final(self) == *old(self),
            always_separates(*splitter) ==> final(self).nodes_seq()[node as int].triangle_count
                <= 2 && (forall|j: int|
                old(self).num_nodes() <= j < final(self).num_nodes()
                    ==> final(self).nodes_seq()[j].triangle_count <= 2),
        decreases self.spans()[node as int].1,
    {
        proof {
            assert(node_ok(self.nodes@, self.spans@, self.num_nodes(), self.n(), node as int));
        }
        if !self.wants_split(node) {
            return;
        }
        let flags = splitter(&*self, node);
        let ghost at_entry = *self;
        if flags.len() != self.num_triangles() {
            // a ragged answer cannot be partitioned on; the node stays a leaf
            proof {
                if always_separates(*splitter) {
                    assert(splits_every_big_leaf(at_entry, node as int, flags));
                    assert(false);
                }
            }
            return;
        }
        match self.subdivide_node(node, &flags) {
            None => {
                proof {
                    if always_separates(*splitter) {
                        broadcast use vstd::seq_lib::group_to_multiset_ensures;

                        assert(splits_every_big_leaf(at_entry, node as int, flags));
                        let (k1, k2) = choose|k1: int, k2: int|
                            #[trigger] split_witness(at_entry, node as int, flags, k1, k2);
                        let f = at_entry.nodes_seq()[node as int].left_or_first as int;
                        let c = at_entry.nodes_seq()[node as int].triangle_count as int;
                        lemma_run_multiset_preserved(at_entry.perm(), self.perm(), f, c);
                        let run_pre = at_entry.perm().subrange(f, f + c);
                        let run_post = self.perm().subrange(f, f + c);
                        let v1 = at_entry.perm()[k1];
                        let v2 = at_entry.perm()[k2];
                        assert(run_pre[k1 - f] == v1 && run_pre[k2 - f] == v2);
                        assert(run_pre.contains(v1) && run_pre.contains(v2));
                        assert(run_pre.to_multiset().count(v1) > 0 && run_pre.to_multiset().count(
                            v2,
                        ) > 0);
                        assert(run_post.to_multiset() == run_pre.to_multiset());
                        assert(run_post.contains(v1) && run_post.contains(v2));
                        let p1 = choose|p: int| 0 <= p < run_post.len() && run_post[p] == v1;
                        let p2 = choose|p: int| 0 <= p < run_post.len() && run_post[p] == v2;
                        assert(self.perm()[f + p1] == v1 && self.perm()[f + p2] == v2);
                        assert(false);
                    }
                }
            },
            Some((l, rt)) => {
                let ghost after_split = *self;
                proof {
                    assert(after_split.spans()[l as int].1 < at_entry.spans()[node as int].1);
                    assert(after_split.spans()[rt as int].1 < at_entry.spans()[node as int].1);
                }
                self.build_from(l, splitter);
                let ghost after_left = *self;
                proof {
                    assert(self.spans()[rt as int] == after_split.spans()[rt as int]);
                }
                self.build_from(rt, splitter);
                proof {
                    if always_separates(*splitter) {
                        assert forall|j: int|
                            at_entry.num_nodes() <= j < self.num_nodes() implies self.nodes_seq()[j].triangle_count
                            <= 2 by {
                            if j == l as int {
                                assert(after_left.nodes_seq()[j].triangle_count <= 2);
                            } else if j == rt as int {
                            } else if j < after_split.num_nodes() {
                            } else if j < after_left.num_nodes() {
                                assert(after_left.nodes_seq()[j].triangle_count <= 2);
                            }
                        }
                        assert(self.nodes_seq()[node as int].triangle_count == 0);
                    }
                }
            },
        }
    }

    /// Build the hierarchy over the whole triangle set: subdivide from the
    /// root until every leaf is small enough or its triangles cannot be
    /// separated. On a freshly validated tree, a splitter that always
    /// separates (`always_separates`) drives subdivision to completion:
    /// every leaf of the result holds at most two triangles.
    pub fn build<F: Fn(&Bvh, usize) -> Vec<bool>>(&mut self, splitter: &F)
        requires
            old(self).wf(),
            forall|b: &Bvh, j: usize| #[trigger] call_requires(*splitter, (b, j)),
        ensures
            final(self).wf(),
            final(self).n() == old(self).n(),
            final(self).indices_seq() == old(self).indices_seq(),
            final(self).num_vertices_spec() == old(self).num_vertices_spec(),
            final(self).perm().to_multiset() == old(self).perm().to_multiset(),
            final(self).num_nodes() >= old(self).num_nodes(),
            always_separates(*splitter) ==> final(self).nodes_seq()[0].triangle_count <= 2 && (
            forall|j: int|
                old(self).num_nodes() <= j < final(self).num_nodes()
                    ==> final(self).nodes_seq()[j].triangle_count <= 2),
            always_separates(*splitter) && old(self).num_nodes() == 1 ==> forall|j: int|
                0 <= j < final(self).num_nodes() ==> final(self).nodes_seq()[j].triangle_count
                    <= 2,
    {
        self.build_from(0, splitter);
    }

    /// The `(first, count)` runs of the permutation array owned by the
    /// leaves, in tree order — exactly the spans the partition law
    /// `lemma_leaf_partition` is about: together they lay the whole
    /// permutation array end to end.
    pub fn leaf_runs(&self) -> (r: Vec<(usize, usize)>)
        requires
            self.wf(),
        ensures
            r@.map_values(|p: (usize, usize)| (p.0 as int, p.1 as int)) == leaf_spans(
                self.nodes_seq(),
                self.num_nodes(),
                0,
            ),
            tiles(leaf_spans(self.nodes_seq(), self.num_nodes(), 0), 0, self.n()),
    {
        let mut out: Vec<(usize, usize)> = Vec::new();
        proof {
            let f = |p: (usize, usize)| (p.0 as int, p.1 as int);
            assert(out@.map_values(f) =~= Seq::<(int, int)>::empty());
            self.lemma_subtree_tiles(0);
        }
        self.leaf_runs_rec(0, &mut out);
        proof {
            let f = |p: (usize, usize)| (p.0 as int, p.1 as int);
            assert(Seq::<(int, int)>::empty() + leaf_spans(self.nodes_seq(), self.num_nodes(), 0)
                =~= leaf_spans(self.nodes_seq(), self.num_nodes(), 0));
        }
        out
    }
}

} // verus!
