use culet::bvh::{Bvh, MeshError};
use glam::Vec3;

fn quad_indices(n_tris: usize, n_verts: u32) -> Vec<u32> {
    // n_tris triangles over n_verts vertices, corners cycling through the buffer
    let mut idx = Vec::new();
    for t in 0..n_tris as u32 {
        idx.push(t % n_verts);
        idx.push((t + 1) % n_verts);
        idx.push((t + 2) % n_verts);
    }
    idx
}

#[test]
fn build_rejects_empty_vertices() {
    let r = Bvh::new(0, vec![0, 1, 2]);
    assert_eq!(r.err(), Some(MeshError::NoVertices));
}

#[test]
fn build_rejects_empty_indices() {
    let r = Bvh::new(3, vec![]);
    assert_eq!(r.err(), Some(MeshError::NoIndices));
}

#[test]
fn build_rejects_ragged_index_buffer() {
    let r = Bvh::new(3, vec![0, 1]);
    assert_eq!(r.err(), Some(MeshError::IndicesNotTriples));
}

#[test]
fn build_rejects_out_of_range_corner() {
    let r = Bvh::new(2, vec![0, 1, 2]);
    assert_eq!(r.err(), Some(MeshError::IndexOutOfRange));
}

#[test]
fn root_leaf_covers_all_triangles() {
    let bvh = Bvh::new(4, quad_indices(4, 4)).unwrap();
    assert_eq!(bvh.num_triangles(), 4);
    assert_eq!(bvh.num_vertices(), 4);
    assert_eq!(bvh.used_nodes(), 1);
    let root = bvh.node(0);
    assert_eq!(root.left_or_first, 0);
    assert_eq!(root.triangle_count, 4);
    for k in 0..4 {
        assert_eq!(bvh.triangle_index(k), k);
    }
    assert!(bvh.wants_split(0));
}

#[test]
fn corner_reads_the_index_buffer() {
    let idx = vec![0, 1, 2, 2, 3, 0];
    let bvh = Bvh::new(4, idx.clone()).unwrap();
    for t in 0..2 {
        for c in 0..3 {
            assert_eq!(bvh.corner(t, c), idx[3 * t + c]);
        }
    }
}

#[test]
fn subdivide_partitions_the_leaf_run() {
    let mut bvh = Bvh::new(4, quad_indices(4, 4)).unwrap();
    // triangles 0 and 1 below the split plane, 2 and 3 above
    let flags = vec![true, true, false, false];
    let children = bvh.subdivide_node(0, &flags);
    assert_eq!(children, Some((1, 2)));
    assert_eq!(bvh.used_nodes(), 3);
    let root = bvh.node(0);
    assert_eq!(root.triangle_count, 0);
    assert_eq!(root.left_or_first, 1);
    let left = bvh.node(1);
    let right = bvh.node(2);
    assert_eq!((left.left_or_first, left.triangle_count), (0, 2));
    assert_eq!((right.left_or_first, right.triangle_count), (2, 2));
    // the two-pointer pass leaves [0, 1, 3, 2]
    let perm: Vec<usize> = (0..4).map(|k| bvh.triangle_index(k)).collect();
    assert_eq!(perm, vec![0, 1, 3, 2]);
}

#[test]
fn subdivide_with_uniform_flags_keeps_the_leaf() {
    let mut bvh = Bvh::new(4, quad_indices(4, 4)).unwrap();
    let flags = vec![true, true, true, true];
    assert_eq!(bvh.subdivide_node(0, &flags), None);
    assert_eq!(bvh.used_nodes(), 1);
    let root = bvh.node(0);
    assert_eq!((root.left_or_first, root.triangle_count), (0, 4));
}

#[test]
fn leaf_runs_partition_all_triangles() {
    // split as deep as the tree allows, with arbitrary (parity) flags
    let n = 16;
    let mut bvh = Bvh::new(8, quad_indices(n, 8)).unwrap();
    let mut stack = vec![0usize];
    while let Some(i) = stack.pop() {
        if bvh.wants_split(i) {
            let node = bvh.node(i);
            // odd ids left, even ids right, relative to the run's first id
            let pivot = bvh.triangle_index(node.left_or_first);
            let flags: Vec<bool> = (0..n).map(|t| (t + pivot) % 2 == 1).collect();
            if let Some((l, r)) = bvh.subdivide_node(i, &flags) {
                stack.push(l);
                stack.push(r);
            }
        }
    }
    // collect every leaf's run; together they must hold 0..n exactly once
    let mut seen = vec![0u32; n];
    let mut leaves: usize = 0;
    for i in 0..bvh.used_nodes() {
        let node = bvh.node(i);
        if node.triangle_count > 0 {
            leaves += 1;
            for k in node.left_or_first..node.left_or_first + node.triangle_count {
                seen[bvh.triangle_index(k)] += 1;
            }
        }
    }
    assert!(leaves > 1);
    assert!(seen.iter().all(|&c| c == 1));

    // the leaf runs in tree order tile [0, n) contiguously
    let runs = bvh.leaf_runs();
    assert_eq!(runs.len(), leaves);
    let mut next: usize = 0;
    for (first, count) in &runs {
        assert_eq!(*first, next);
        assert!(*count >= 1);
        next += count;
    }
    assert_eq!(next, n);
}

#[test]
fn unpruned_descent_enumerates_every_triangle_once() {
    let n = 12;
    let mut bvh = Bvh::new(8, quad_indices(n, 8)).unwrap();
    let splitter = |tree: &Bvh, node: usize| -> Vec<bool> {
        let pivot = tree.triangle_index(tree.node(node).left_or_first);
        (0..tree.num_triangles()).map(|t| (t + pivot) % 2 == 1).collect()
    };
    bvh.build(&splitter);
    assert!(bvh.used_nodes() > 1);

    // a predicate that always passes visits the same triangle set a
    // brute-force scan does, with no triangle repeated
    let all = bvh.candidate_triangles(&|_t: &Bvh, _i: usize| true);
    assert_eq!(all.len(), n);
    let mut sorted = all.clone();
    sorted.sort();
    assert_eq!(sorted, (0..n).collect::<Vec<usize>>());

    // a predicate that always fails prunes the whole tree at the root
    let none = bvh.candidate_triangles(&|_t: &Bvh, _i: usize| false);
    assert!(none.is_empty());

    // pruning the root's right subtree drops exactly its triangles
    let right_child = bvh.node(0).left_or_first + 1;
    let left_only = bvh.candidate_triangles(&move |_t: &Bvh, i: usize| i != right_child);
    assert!(!left_only.is_empty());
    assert!(left_only.len() < n);
}

#[test]
fn build_splits_until_flags_stop_separating() {
    let mut bvh = Bvh::new(8, quad_indices(16, 8)).unwrap();
    // the first eight triangles always go left: one split, then both
    // children see uniform flags and stay leaves
    let splitter = |tree: &Bvh, _node: usize| -> Vec<bool> {
        (0..tree.num_triangles()).map(|t| t < 8).collect()
    };
    bvh.build(&splitter);
    assert_eq!(bvh.used_nodes(), 3);
    assert_eq!(bvh.leaf_runs(), vec![(0, 8), (8, 8)]);
}

#[test]
fn a_splitter_that_always_separates_finishes_the_tree() {
    // halve every run by position: any run of two or more triangles gets a
    // non-trivial split, so subdivision must run until every leaf holds at
    // most two triangles
    let n = 13;
    let mut bvh = Bvh::new(8, quad_indices(n, 8)).unwrap();
    let splitter = |tree: &Bvh, node: usize| -> Vec<bool> {
        let nd = tree.node(node);
        let half = nd.triangle_count / 2;
        let mut flags = vec![false; tree.num_triangles()];
        for k in nd.left_or_first..nd.left_or_first + nd.triangle_count {
            if k < nd.left_or_first + half {
                flags[tree.triangle_index(k)] = true;
            }
        }
        flags
    };
    bvh.build(&splitter);
    for i in 0..bvh.used_nodes() {
        assert!(bvh.node(i).triangle_count <= 2);
    }
    // and still a partition of the triangle set
    let mut seen = vec![0u32; n];
    for (first, count) in bvh.leaf_runs() {
        for k in first..first + count {
            seen[bvh.triangle_index(k)] += 1;
        }
    }
    assert!(seen.iter().all(|&c| c == 1));
}

#[test]
fn build_with_centroid_splitter_groups_by_position() {
    // four triangles on the x axis: two near the origin, two far out
    let xs = [0.0f32, 1.0, 10.0, 11.0];
    let vertices: Vec<Vec3> = xs
        .iter()
        .flat_map(|&x| {
            [Vec3::new(x, 0.0, 0.0), Vec3::new(x + 0.2, 1.0, 0.0), Vec3::new(x + 0.4, 0.0, 1.0)]
        })
        .collect();
    let indices: Vec<u32> = (0..12).collect();
    let mut bvh = Bvh::new(vertices.len(), indices).unwrap();

    let verts = vertices.clone();
    let splitter = |tree: &Bvh, node: usize| -> Vec<bool> {
        let vertex = |tri: usize, c: usize| verts[tree.corner(tri, c) as usize];
        let nd = tree.node(node);
        let mut lo = Vec3::splat(1e30);
        let mut hi = Vec3::splat(-1e30);
        for k in nd.left_or_first..nd.left_or_first + nd.triangle_count {
            let tri = tree.triangle_index(k);
            for c in 0..3 {
                lo = lo.min(vertex(tri, c));
                hi = hi.max(vertex(tri, c));
            }
        }
        let extent = hi - lo;
        let mut axis = 0;
        if extent.y > extent.x {
            axis = 1;
        }
        if extent.z > extent[axis] {
            axis = 2;
        }
        let split = lo[axis] + 0.5 * extent[axis];
        (0..tree.num_triangles())
            .map(|t| {
                let c = (vertex(t, 0) + vertex(t, 1) + vertex(t, 2)) / 3.0;
                c[axis] < split
            })
            .collect()
    };
    bvh.build(&splitter);

    // one split along x: triangles 0 and 1 land in the left leaf
    assert_eq!(bvh.used_nodes(), 3);
    assert_eq!(bvh.leaf_runs(), vec![(0, 2), (2, 2)]);
    let mut left: Vec<usize> = (0..2).map(|k| bvh.triangle_index(k)).collect();
    let mut right: Vec<usize> = (2..4).map(|k| bvh.triangle_index(k)).collect();
    left.sort();
    right.sort();
    assert_eq!(left, vec![0, 1]);
    assert_eq!(right, vec![2, 3]);
}
