use std::collections::VecDeque;

use cycle_fusion::cycle::{Cycle, CycleError};
use cycle_fusion::tables::{Adjacency, EdgeAdjacency};

/// Coordinates of the unit square 0-1-2-3-0 in the z = 0 plane.
fn quad_verts() -> Vec<(i32, i32, i32)> {
    vec![(0, 0, 0), (1, 0, 0), (1, 1, 0), (0, 1, 0)]
}

/// Vertex adjacency of the square 0-1-2-3-0.
fn quad_adj() -> Adjacency {
    let mut adj = Adjacency::new();
    adj.insert(0, vec![1, 3]);
    adj.insert(1, vec![0, 2]);
    adj.insert(2, vec![1, 3]);
    adj.insert(3, vec![2, 0]);
    adj
}

/// Edge adjacency pairing each square edge with its opposite edge.
fn quad_edge_adj() -> EdgeAdjacency {
    let mut ea = EdgeAdjacency::new();
    ea.insert((0, 1), vec![(2, 3)]);
    ea.insert((1, 2), vec![(0, 3)]);
    ea.insert((2, 3), vec![(0, 1)]);
    ea.insert((0, 3), vec![(1, 2)]);
    ea
}

fn sorted(mut v: Vec<(u32, u32)>) -> Vec<(u32, u32)> {
    v.sort_unstable();
    v
}

#[test]
fn rotate_scenario_quad() {
    let verts = quad_verts();
    let adj = quad_adj();
    let ea = quad_edge_adj();
    let mut c = Cycle::new_from_vec(&vec![0, 1, 2, 3], &adj, &ea, &verts, false);
    let r = c.rotate_to_edge(2, 3);
    assert_eq!(r, Ok(()));
    assert_eq!(c.retrieve(), vec![2, 1, 0, 3]);
    let edges = c.edges();
    assert_eq!(edges, vec![(1, 2), (0, 1), (0, 3), (2, 3)]);
}

#[test]
fn rotate_missing_vertex_reports_error() {
    let verts = quad_verts();
    let adj = quad_adj();
    let ea = quad_edge_adj();
    let mut c = Cycle::new_from_vec(&vec![0, 1, 2, 3], &adj, &ea, &verts, false);
    let r = c.rotate_to_edge(7, 1);
    assert_eq!(r, Err(CycleError::VertexNotFound));
    assert_eq!(c.retrieve(), vec![0, 1, 2, 3]);
}

#[test]
fn plain_edges_one_per_position() {
    let verts = quad_verts();
    let adj = quad_adj();
    let ea = quad_edge_adj();
    let mut c = Cycle::new_from_vec(&vec![0, 1, 2, 3], &adj, &ea, &verts, false);
    let edges = c.edges();
    assert_eq!(edges.len(), 4);
    assert_eq!(edges, vec![(0, 1), (1, 2), (2, 3), (0, 3)]);
    let made = c.make_edges();
    assert_eq!(made, edges);
}

#[test]
fn rotation_preserves_vertices_and_edges() {
    let verts = quad_verts();
    let adj = quad_adj();
    let ea = quad_edge_adj();
    let mut c = Cycle::new_from_vec(&vec![0, 1, 2, 3], &adj, &ea, &verts, false);
    let before = sorted(c.edges());
    let mut vs_before = c.retrieve();
    vs_before.sort_unstable();
    let r = c.rotate_to_edge(2, 3);
    assert_eq!(r, Ok(()));
    let after = sorted(c.edges());
    let mut vs_after = c.retrieve();
    vs_after.sort_unstable();
    assert_eq!(before, after);
    assert_eq!(vs_before, vs_after);
}

#[test]
fn reorient_twice_restores_representation() {
    let verts = quad_verts();
    let adj = quad_adj();
    let ea = quad_edge_adj();
    // Seam pair of [0, 1, 2, 3] is (first, last) = (0, 3): one application
    // flips the traversal direction, a second one restores the sequence.
    let mut c = Cycle::new_from_vec(&vec![0, 1, 2, 3], &adj, &ea, &verts, false);
    assert_eq!(c.rotate_to_edge(0, 3), Ok(()));
    assert_eq!(c.retrieve(), vec![2, 1, 0, 3]);
    assert_eq!(c.rotate_to_edge(0, 3), Ok(()));
    assert_eq!(c.retrieve(), vec![0, 1, 2, 3]);
}

/// Coordinates of the unit cube: bottom square 0-1-2-3, top square 4-5-6-7.
fn cube_verts() -> Vec<(i32, i32, i32)> {
    vec![
        (0, 0, 0),
        (1, 0, 0),
        (1, 1, 0),
        (0, 1, 0),
        (0, 0, 1),
        (1, 0, 1),
        (1, 1, 1),
        (0, 1, 1),
    ]
}

/// Vertex adjacency of the unit cube.
fn cube_adj() -> Adjacency {
    let mut adj = Adjacency::new();
    adj.insert(0, vec![1, 3, 4]);
    adj.insert(1, vec![0, 2, 5]);
    adj.insert(2, vec![1, 3, 6]);
    adj.insert(3, vec![0, 2, 7]);
    adj.insert(4, vec![0, 5, 7]);
    adj.insert(5, vec![1, 4, 6]);
    adj.insert(6, vec![2, 5, 7]);
    adj.insert(7, vec![3, 4, 6]);
    adj
}

#[test]
fn fusion_of_disjoint_squares() {
    let verts = cube_verts();
    let adj = cube_adj();
    let ea = EdgeAdjacency::new();
    let mut a = Cycle::new_from_vec(&vec![0, 1, 2, 3], &adj, &ea, &verts, false);
    let mut b = Cycle::new_from_vec(&vec![4, 5, 6, 7], &adj, &ea, &verts, false);
    let edges_a = sorted(a.edges());
    let edges_b = sorted(b.edges());
    assert_eq!(edges_a, vec![(0, 1), (0, 3), (1, 2), (2, 3)]);
    assert_eq!(edges_b, vec![(4, 5), (4, 7), (5, 6), (6, 7)]);
    // Fuse at the boundary edges (1,2) on `a` and (5,6) on `b`: the neighbours
    // of vertex 2 do not hold 5, so the partner pair is swapped to (6,5).
    let r = a.join((1, 2), (5, 6), &mut b);
    assert_eq!(r, Ok(()));
    let merged = a.retrieve();
    assert_eq!(merged, vec![1, 0, 3, 2, 6, 7, 4, 5]);
    assert_eq!(merged.len(), 8);
    let mut vs = merged.clone();
    vs.sort_unstable();
    assert_eq!(vs, vec![0, 1, 2, 3, 4, 5, 6, 7]);
    // Edge set: both square edge sets, minus the two consumed boundary edges,
    // plus the two seams (2,6) and (1,5).
    let merged_edges = sorted(a.edges());
    assert_eq!(
        merged_edges,
        vec![(0, 1), (0, 3), (1, 5), (2, 3), (2, 6), (4, 5), (4, 7), (6, 7)]
    );
}

#[test]
fn fusion_missing_adjacency_entry() {
    let verts = cube_verts();
    let adj = quad_adj(); // no entry for vertex 6
    let ea = EdgeAdjacency::new();
    let mut a = Cycle::new_from_vec(&vec![2, 6], &adj, &ea, &verts, false);
    let mut b = Cycle::new_from_vec(&vec![4, 5], &adj, &ea, &verts, false);
    let r = a.join((2, 6), (4, 5), &mut b);
    assert_eq!(r, Err(CycleError::MissingAdjacencyEntry));
    assert_eq!(a.retrieve(), vec![2, 6]);
    assert_eq!(b.retrieve(), vec![4, 5]);
}

#[test]
fn fusion_vertex_not_found() {
    let verts = cube_verts();
    let adj = cube_adj();
    let ea = EdgeAdjacency::new();
    let mut a = Cycle::new_from_vec(&vec![0, 1, 2, 3], &adj, &ea, &verts, false);
    let mut b = Cycle::new_from_vec(&vec![4, 5, 6, 7], &adj, &ea, &verts, false);
    let r = a.join((1, 6), (5, 6), &mut b);
    assert_eq!(r, Err(CycleError::VertexNotFound));
    assert_eq!(a.retrieve(), vec![0, 1, 2, 3]);
    assert_eq!(b.retrieve(), vec![4, 5, 6, 7]);
}

#[test]
fn fusion_partner_vertex_not_found() {
    let verts = cube_verts();
    let adj = cube_adj();
    let ea = EdgeAdjacency::new();
    let mut a = Cycle::new_from_vec(&vec![0, 1, 2, 3], &adj, &ea, &verts, false);
    let mut b = Cycle::new_from_vec(&vec![4, 5, 6, 7], &adj, &ea, &verts, false);
    // Vertex 9 occurs in neither the adjacency entry of 2 nor in `b`.
    let r = a.join((1, 2), (9, 9), &mut b);
    assert_eq!(r, Err(CycleError::VertexNotFound));
    assert_eq!(a.retrieve(), vec![0, 1, 2, 3]);
    assert_eq!(b.retrieve(), vec![4, 5, 6, 7]);
}

#[test]
fn filtered_edges_are_subset_of_plain() {
    let verts = quad_verts();
    let adj = quad_adj();
    let ea = quad_edge_adj();
    let mut lead = Cycle::new_from_vec(&vec![0, 1, 2, 3], &adj, &ea, &verts, true);
    let filtered = lead.edges();
    let plain = lead.make_edges();
    // Coordinate sums: (0,1) gives 1, (1,2) gives 3, (2,3) gives 3, (0,3)
    // gives 1; only sums in [3, 9) pass.
    assert_eq!(sorted(filtered.clone()), vec![(1, 2), (2, 3)]);
    for e in &filtered {
        assert!(plain.contains(e));
    }
}

#[test]
fn edge_cache_keyed_by_sequence_alone() {
    let verts = quad_verts();
    let adj = quad_adj();
    let ea = quad_edge_adj();
    let mut c = Cycle::new_from_vec(&vec![0, 1, 2, 3], &adj, &ea, &verts, true);
    let first = c.edges();
    let again = c.edges();
    assert_eq!(first, again);
    // The cache key is the sequence snapshot alone: marking the cycle
    // terminal does not invalidate a fresh cache.
    c.set_last();
    let still_cached = c.edges();
    assert_eq!(still_cached, first);
    // Once the sequence changes, derivation runs again, now in plain mode.
    assert_eq!(c.rotate_to_edge(2, 3), Ok(()));
    let recomputed = c.edges();
    assert_eq!(recomputed.len(), 4);
    assert_eq!(sorted(recomputed), vec![(0, 1), (0, 3), (1, 2), (2, 3)]);
}

#[test]
fn set_last_and_set_lead_are_idempotent() {
    let verts = quad_verts();
    let adj = quad_adj();
    let ea = quad_edge_adj();
    let mut c = Cycle::new_from_vec(&vec![0, 1, 2, 3], &adj, &ea, &verts, false);
    c.set_lead();
    c.set_lead();
    let filtered = c.edges();
    assert_eq!(sorted(filtered), vec![(1, 2), (2, 3)]);
    let mut d = Cycle::new_from_vec(&vec![0, 1, 2, 3], &adj, &ea, &verts, true);
    d.set_last();
    d.set_last();
    let plain = d.edges();
    assert_eq!(plain.len(), 4);
}

#[test]
fn eadjs_unions_adjacent_edges() {
    let verts = quad_verts();
    let adj = quad_adj();
    let ea = quad_edge_adj();
    let mut c = Cycle::new_from_vec(&vec![0, 1, 2, 3], &adj, &ea, &verts, false);
    let r = c.eadjs();
    match r {
        Ok(out) => {
            assert_eq!(sorted(out), vec![(0, 1), (0, 3), (1, 2), (2, 3)]);
        },
        Err(_) => panic!("every quad edge has an adjacency entry"),
    }
}

#[test]
fn eadjs_missing_entry_reports_error() {
    let verts = quad_verts();
    let adj = quad_adj();
    let mut ea = EdgeAdjacency::new();
    ea.insert((0, 1), vec![(2, 3)]);
    let mut c = Cycle::new_from_vec(&vec![0, 1, 2, 3], &adj, &ea, &verts, false);
    let r = c.eadjs();
    assert_eq!(r, Err(CycleError::MissingEdgeAdjacencyEntry));
}

#[test]
fn constructors_are_equivalent() {
    let verts = quad_verts();
    let adj = quad_adj();
    let ea = quad_edge_adj();
    let thread: VecDeque<u32> = VecDeque::from(vec![0, 1, 2, 3]);
    let a = Cycle::new(&thread, &adj, &ea, &verts, false);
    let b = Cycle::new_from_vec(&vec![0, 1, 2, 3], &adj, &ea, &verts, false);
    let c = Cycle::from(thread.clone(), &adj, &ea, &verts, false);
    assert_eq!(a.retrieve(), vec![0, 1, 2, 3]);
    assert_eq!(a.retrieve(), b.retrieve());
    assert_eq!(a.retrieve(), c.retrieve());
}

#[test]
fn single_and_double_vertex_cycles() {
    let verts = quad_verts();
    let adj = quad_adj();
    let ea = quad_edge_adj();
    let mut single = Cycle::new_from_vec(&vec![1], &adj, &ea, &verts, false);
    assert_eq!(single.edges(), vec![(1, 1)]);
    let mut pair = Cycle::new_from_vec(&vec![1, 2], &adj, &ea, &verts, false);
    // Both consecutive pairs canonicalize to the same edge; the set keeps one.
    assert_eq!(pair.edges(), vec![(1, 2)]);
}
