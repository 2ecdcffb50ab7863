//! The cycle: an ordered, cyclic sequence of vertex identifiers representing a
//! closed walk with no repeated vertices, together with cached derived edge
//! data and state flags.
//!
//! A cycle is reoriented in place so a chosen directed edge becomes its seam,
//! fused with a second, vertex-disjoint cycle at a pair of mutually adjacent
//! boundary edges, and asked for its canonical edge set (plain, or
//! geometrically filtered for lead cycles) and for the set of edges adjacent
//! to that edge set.

use vstd::prelude::*;
use crate::edges::{
    canon, inner_edges, lemma_edge_endpoints, lemma_inner_edges_concat, lemma_plain_edges_split,
    lemma_wrap_edge_not_inner,
    copy_edges, derive_edges, edge_set_for, edges_result_ok, holds_edge, plain_edges,
};
use crate::rotation::{
    copy_vertices, lemma_pos_of_unique, lemma_rotate_preserves_cycle, position_of, reversed,
    rotate_applies, rotate_spec, rotated_left, vecs_equal,
};
use crate::tables::{Adjacency, EdgeAdjacency};

verus! {

/// An inconsistency between a cycle and the externally supplied graph context.
#[derive(Clone, Copy, Debug, PartialEq, Eq, Structural)]
pub enum CycleError {
    /// A vertex handed to reorientation is absent from the cycle's sequence.
    VertexNotFound,
    /// A vertex has no entry in the adjacency map during fusion.
    MissingAdjacencyEntry,
    /// A cycle edge has no entry in the edge-adjacency map.
    MissingEdgeAdjacencyEntry,
}

/// An ordered, cyclic vertex sequence with cached derived edge data, state
/// flags, and the shared read-only graph context it consults.
pub struct Cycle<'a> {
    data: Vec<u32>,
    joined: bool,
    last: bool,
    lead: bool,
    prev: Vec<u32>,
    cached: Vec<(u32, u32)>,
    cached_filtered: Ghost<bool>,
    verts: &'a [(i32, i32, i32)],
    adj: &'a Adjacency,
    edge_adj: &'a EdgeAdjacency,
}

impl<'a> View for Cycle<'a> {
    type V = Seq<u32>;

    closed spec fn view(&self) -> Seq<u32> {
        self.data@
    }
}

impl<'a> Cycle<'a> {
    /// Whether this cycle has absorbed another cycle through fusion.
    pub closed spec fn is_joined(self) -> bool {
        self.joined
    }

    /// Whether this cycle was marked terminal.
    pub closed spec fn is_last(self) -> bool {
        self.last
    }

    /// Whether this cycle was marked as a lead cycle.
    pub closed spec fn is_lead(self) -> bool {
        self.lead
    }

    /// The coordinate table the cycle consults.
    pub closed spec fn verts_view(self) -> Seq<(i32, i32, i32)> {
        self.verts@
    }

    /// The vertex adjacency map the cycle consults.
    pub closed spec fn adjacency(self) -> Adjacency {
        *self.adj
    }

    /// The edge adjacency map the cycle consults.
    pub closed spec fn edge_adjacency(self) -> EdgeAdjacency {
        *self.edge_adj
    }

    /// The sequence snapshot taken when the edge cache was last refreshed.
    pub closed spec fn cache_key(self) -> Seq<u32> {
        self.prev@
    }

    /// The cached canonical edge vector.
    pub closed spec fn cached_edge_seq(self) -> Seq<(u32, u32)> {
        self.cached@
    }

    /// Whether the cached edge vector was derived in filtered mode.
    pub closed spec fn cached_filtered(self) -> bool {
        self.cached_filtered@
    }

    /// Whether edge derivation currently uses the filtered mode: lead cycles
    /// use it until they are marked terminal.
    pub open spec fn filtered_mode(self) -> bool {
        self.is_lead() && !self.is_last()
    }

    /// Whether the cached edge vector still matches the current sequence.
    pub open spec fn cache_fresh(self) -> bool {
        self.cache_key() == self@
    }

    /// The two cycles consult the same graph context.
    pub open spec fn ctx_eq(self, other: Cycle<'a>) -> bool {
        &&& self.verts_view() == other.verts_view()
        &&& self.adjacency() == other.adjacency()
        &&& self.edge_adjacency() == other.edge_adjacency()
    }

    /// The two cycles carry the same state flags.
    pub open spec fn flags_eq(self, other: Cycle<'a>) -> bool {
        &&& self.is_joined() == other.is_joined()
        &&& self.is_last() == other.is_last()
        &&& self.is_lead() == other.is_lead()
    }

    /// The two cycles carry the same edge cache.
    pub open spec fn cache_eq(self, other: Cycle<'a>) -> bool {
        &&& self.cache_key() == other.cache_key()
        &&& self.cached_edge_seq() == other.cached_edge_seq()
        &&& self.cached_filtered() == other.cached_filtered()
    }

    /// Well-formedness: the sequence is simple, every vertex indexes the
    /// coordinate table, the shared maps have unique keys, and the cached edge
    /// vector is a correct derivation for the snapshot it was taken from.
    pub closed spec fn wf(self) -> bool {
        &&& self.data@.no_duplicates()
        &&& forall|i: int|
            0 <= i < self.data@.len() ==> (self.data@[i] as int) < self.verts@.len()
        &&& self.adj.wf()
        &&& self.edge_adj.wf()
        &&& edges_result_ok(self.cached@, self.prev@, self.verts@, self.cached_filtered@)
    }

    /// A well-formed cycle has a simple sequence whose vertices all index the
    /// coordinate table.
    pub proof fn lemma_wf_sequence(self)
        requires
            self.wf(),
        ensures
            self@.no_duplicates(),
            forall|i: int| 0 <= i < self@.len() ==> (self@[i] as int) < self.verts_view().len(),
    {
    }

    /// Builds a cycle from a vertex thread; `joined` and `last` start unset
    /// and the edge cache starts empty.
    pub fn new(
        data: &std::collections::VecDeque<u32>,
        adj: &'a Adjacency,
        edge_adj: &'a EdgeAdjacency,
        verts: &'a [(i32, i32, i32)],
        lead: bool,
    ) -> (c: Cycle<'a>)
        requires
            data@.no_duplicates(),
            forall|i: int| 0 <= i < data@.len() ==> (data@[i] as int) < verts@.len(),
            adj.wf(),
            edge_adj.wf(),
        ensures
            c.wf(),
            c@ == data@,
            !c.is_joined(),
            !c.is_last(),
            c.is_lead() == lead,
            c.cache_key() == Seq::<u32>::empty(),
            c.cached_edge_seq() == Seq::<(u32, u32)>::empty(),
            !c.cached_filtered(),
            c.verts_view() == verts@,
            c.adjacency() == *adj,
            c.edge_adjacency() == *edge_adj,
    {
        let n = data.len();
        let mut seq_data: Vec<u32> = Vec::new();
        let mut i: usize = 0;
        while i < n
            invariant
                n == data@.len(),
                i <= n,
                seq_data@ == data@.subrange(0, i as int),
            decreases n - i,
        {
            seq_data.push(data[i]);
            proof {
                assert(seq_data@ =~= data@.subrange(0, i as int + 1));
            }
            i += 1;
        }
        proof {
            assert(seq_data@ =~= data@);
        }
        Self::assemble(seq_data, adj, edge_adj, verts, lead)
    }

    /// Builds a cycle from an explicit vertex list; equivalent to `new`.
    pub fn new_from_vec(
        data: &Vec<u32>,
        adj: &'a Adjacency,
        edge_adj: &'a EdgeAdjacency,
        verts: &'a [(i32, i32, i32)],
        lead: bool,
    ) -> (c: Cycle<'a>)
        requires
            data@.no_duplicates(),
            forall|i: int| 0 <= i < data@.len() ==> (data@[i] as int) < verts@.len(),
            adj.wf(),
            edge_adj.wf(),
        ensures
            c.wf(),
            c@ == data@,
            !c.is_joined(),
            !c.is_last(),
            c.is_lead() == lead,
            c.cache_key() == Seq::<u32>::empty(),
            c.cached_edge_seq() == Seq::<(u32, u32)>::empty(),
            !c.cached_filtered(),
            c.verts_view() == verts@,
            c.adjacency() == *adj,
            c.edge_adjacency() == *edge_adj,
    {
        let seq_data = copy_vertices(data);
        Self::assemble(seq_data, adj, edge_adj, verts, lead)
    }

    /// Builds a cycle from an owned vertex thread; equivalent to `new`.
    pub fn from(
        vecdata: std::collections::VecDeque<u32>,
        adj: &'a Adjacency,
        edge_adj: &'a EdgeAdjacency,
        verts: &'a [(i32, i32, i32)],
        lead: bool,
    ) -> (c: Cycle<'a>)
        requires
            vecdata@.no_duplicates(),
            forall|i: int| 0 <= i < vecdata@.len() ==> (vecdata@[i] as int) < verts@.len(),
            adj.wf(),
            edge_adj.wf(),
        ensures
            c.wf(),
            c@ == vecdata@,
            !c.is_joined(),
            !c.is_last(),
            c.is_lead() == lead,
            c.cache_key() == Seq::<u32>::empty(),
            c.cached_edge_seq() == Seq::<(u32, u32)>::empty(),
            !c.cached_filtered(),
            c.verts_view() == verts@,
            c.adjacency() == *adj,
            c.edge_adjacency() == *edge_adj,
    {
        Self::new(&vecdata, adj, edge_adj, verts, lead)
    }

    /// Shared constructor core.
    fn assemble(
        data: Vec<u32>,
        adj: &'a Adjacency,
        edge_adj: &'a EdgeAdjacency,
        verts: &'a [(i32, i32, i32)],
        lead: bool,
    ) -> (c: Cycle<'a>)
        requires
            data@.no_duplicates(),
            forall|i: int| 0 <= i < data@.len() ==> (data@[i] as int) < verts@.len(),
            adj.wf(),
            edge_adj.wf(),
        ensures
            c.wf(),
            c@ == data@,
            !c.is_joined(),
            !c.is_last(),
            c.is_lead() == lead,
            c.cache_key() == Seq::<u32>::empty(),
            c.cached_edge_seq() == Seq::<(u32, u32)>::empty(),
            !c.cached_filtered(),
            c.verts_view() == verts@,
            c.adjacency() == *adj,
            c.edge_adjacency() == *edge_adj,
    {
        let c = Cycle {
            data,
            joined: false,
            last: false,
            lead,
            prev: Vec::new(),
            cached: Vec::new(),
            cached_filtered: Ghost(false),
            verts,
            adj,
            edge_adj,
        };
        proof {
            assert(edges_result_ok(c.cached@, c.prev@, c.verts@, c.cached_filtered@)) by {
                assert(c.cached@.to_set() =~= edge_set_for(c.prev@, c.verts@, false)) by {
                    assert(crate::edges::edge_seq(c.prev@).len() == 0);
                }
            }
        }
        c
    }

    /// A copy of the current vertex sequence, in order.
    pub fn retrieve(&self) -> (r: Vec<u32>)
        ensures
            r@ == self@,
    {
        copy_vertices(&self.data)
    }

    /// Marks the cycle terminal: edge derivation uses the plain mode from now
    /// on.  One-way and idempotent.
    pub fn set_last(&mut self)
        ensures
            final(self).is_last(),
            final(self).is_joined() == old(self).is_joined(),
            final(self).is_lead() == old(self).is_lead(),
            final(self)@ == old(self)@,
            final(self).cache_eq(*old(self)),
            final(self).ctx_eq(*old(self)),
            old(self).wf() ==> final(self).wf(),
    {
        self.last = true;
    }

    /// Marks the cycle as a lead cycle: edge derivation uses the filtered mode
    /// until the cycle is marked terminal.  One-way and idempotent.
    pub fn set_lead(&mut self)
        ensures
            final(self).is_lead(),
            final(self).is_joined() == old(self).is_joined(),
            final(self).is_last() == old(self).is_last(),
            final(self)@ == old(self)@,
            final(self).cache_eq(*old(self)),
            final(self).ctx_eq(*old(self)),
            old(self).wf() ==> final(self).wf(),
    {
        self.lead = true;
    }

    /// Reorients the cyclic sequence so the directed edge `(left, right)`
    /// becomes the seam: when the pair already sits at the wrap-around
    /// boundary in forward orientation the sequence is reversed in place;
    /// otherwise it is rotated so `left` leads when `left` follows `right`,
    /// and rotated to `right` and reflected when `right` follows `left`.  The
    /// vertex multiset and the canonical edge set of the walk are unchanged.
    /// Fails without touching the sequence when either vertex is missing.
    pub fn rotate_to_edge(&mut self, left: u32, right: u32) -> (r: Result<(), CycleError>)
        requires
            old(self).wf(),
            old(self)@.len() > 0,
        ensures
            final(self).wf(),
            final(self).flags_eq(*old(self)),
            final(self).cache_eq(*old(self)),
            final(self).ctx_eq(*old(self)),
            match r {
                Ok(()) => {
                    &&& rotate_applies(old(self)@, left, right)
                    &&& final(self)@ == rotate_spec(old(self)@, left, right)
                    &&& final(self)@.to_multiset() == old(self)@.to_multiset()
                    &&& plain_edges(final(self)@) == plain_edges(old(self)@)
                },
                Err(e) => {
                    &&& e == CycleError::VertexNotFound
                    &&& !rotate_applies(old(self)@, left, right)
                    &&& final(self)@ == old(self)@
                },
            },
    {
        let n = self.data.len();
        let r = if left == self.data[n - 1] && right == self.data[0] {
            let nd = reversed(&self.data);
            self.data = nd;
            Ok(())
        } else {
            match position_of(&self.data, left) {
                None => Err(CycleError::VertexNotFound),
                Some(il) => match position_of(&self.data, right) {
                    None => Err(CycleError::VertexNotFound),
                    Some(ir) => {
                        proof {
                            lemma_pos_of_unique(old(self)@, left, il as int);
                            lemma_pos_of_unique(old(self)@, right, ir as int);
                        }
                        if il > ir {
                            let nd = rotated_left(&self.data, il);
                            self.data = nd;
                        } else {
                            let rot = rotated_left(&self.data, ir);
                            let nd = reversed(&rot);
                            self.data = nd;
                        }
                        Ok(())
                    },
                },
            }
        };
        proof {
            if r is Ok {
                lemma_rotate_preserves_cycle(old(self)@, left, right);
                assert forall|i: int|
                    0 <= i < self.data@.len() implies (self.data@[i] as int)
                    < self.verts@.len() by {
                    assert(self.data@.contains(self.data@[i]));
                    assert(old(self).data@.to_set().contains(self.data@[i]));
                    let j = choose|j: int|
                        0 <= j < old(self).data@.len() && old(self).data@[j] == self.data@[i];
                    assert((old(self).data@[j] as int) < self.verts@.len());
                }
            }
        }
        r
    }

    /// The cycle's canonical edge vector, recomputed only when the sequence
    /// has changed since the last derivation.  The cache is keyed by the
    /// sequence alone: while it is fresh the previously derived vector is
    /// returned as is, even if the mode flags changed meanwhile.
    pub fn edges(&mut self) -> (r: Vec<(u32, u32)>)
        requires
            old(self).wf(),
            old(self)@.len() > 0,
        ensures
            final(self).wf(),
            final(self)@ == old(self)@,
            final(self).flags_eq(*old(self)),
            final(self).ctx_eq(*old(self)),
            final(self).cache_key() == old(self)@,
            final(self).cached_filtered() == (if old(self).cache_fresh() {
                old(self).cached_filtered()
            } else {
                old(self).filtered_mode()
            }),
            r@ == final(self).cached_edge_seq(),
            edges_result_ok(r@, old(self)@, old(self).verts_view(), final(self).cached_filtered()),
    {
        let fresh = vecs_equal(&self.prev, &self.data);
        if !fresh {
            let filtered = self.lead && !self.last;
            let derived = derive_edges(&self.data, self.verts, filtered);
            self.cached = derived;
            let key = copy_vertices(&self.data);
            self.prev = key;
            self.cached_filtered = Ghost(filtered);
        }
        copy_edges(&self.cached)
    }

    /// The plain-mode canonical edge vector of the current sequence: one edge
    /// per position, consecutive pairs with wrap-around, canonicalized and
    /// deduplicated.  Pure: the cache is neither consulted nor refreshed.
    pub fn make_edges(&self) -> (r: Vec<(u32, u32)>)
        requires
            self@.len() > 0,
        ensures
            edges_result_ok(r@, self@, self.verts_view(), false),
    {
        derive_edges(&self.data, self.verts, false)
    }

    /// Merges `other` into this cycle at the boundary edges `edge` (on this
    /// cycle) and `oedge` (on `other`): this cycle is reoriented to `edge`,
    /// the orientation of `oedge` is resolved against the adjacency entry of
    /// `edge.1`, `other` is reoriented to the resolved pair, and its sequence
    /// is appended.  `other` is logically consumed afterwards.  All position
    /// lookups happen before either sequence is touched, so a failure leaves
    /// both cycles unchanged.
    pub fn join(&mut self, edge: (u32, u32), oedge: (u32, u32), other: &mut Cycle<'a>) -> (r:
        Result<(), CycleError>)
        requires
            old(self).wf(),
            old(other).wf(),
            old(self)@.len() > 0,
            old(other)@.len() > 0,
            old(self)@.to_set().disjoint(old(other)@.to_set()),
            old(other).verts_view() == old(self).verts_view(),
        ensures
            final(self).wf(),
            final(other).wf(),
            final(self).is_last() == old(self).is_last(),
            final(self).is_lead() == old(self).is_lead(),
            final(self).cache_eq(*old(self)),
            final(self).ctx_eq(*old(self)),
            final(other).flags_eq(*old(other)),
            final(other).cache_eq(*old(other)),
            final(other).ctx_eq(*old(other)),
            ({
                let rs = resolved_seam(old(self).adjacency(), edge, oedge);
                match r {
                    Ok(()) => {
                        &&& rotate_applies(old(self)@, edge.0, edge.1)
                        &&& old(self).adjacency().lookup(edge.1) is Some
                        &&& rotate_applies(old(other)@, rs.0, rs.1)
                        &&& final(other)@ == rotate_spec(old(other)@, rs.0, rs.1)
                        &&& final(self)@ == rotate_spec(old(self)@, edge.0, edge.1)
                            + final(other)@
                        &&& final(self).is_joined()
                        &&& final(self)@.len() == old(self)@.len() + old(other)@.len()
                        &&& final(self)@.to_multiset() == old(self)@.to_multiset().add(
                            old(other)@.to_multiset(),
                        )
                        &&& final(self)@.no_duplicates()
                    },
                    Err(e) => {
                        &&& final(self)@ == old(self)@
                        &&& final(other)@ == old(other)@
                        &&& final(self).is_joined() == old(self).is_joined()
                        &&& (e == CycleError::VertexNotFound || e
                            == CycleError::MissingAdjacencyEntry)
                        &&& (e == CycleError::VertexNotFound <==> (!rotate_applies(
                            old(self)@,
                            edge.0,
                            edge.1,
                        ) || (old(self).adjacency().lookup(edge.1) is Some && !rotate_applies(
                            old(other)@,
                            rs.0,
                            rs.1,
                        ))))
                        &&& (e == CycleError::MissingAdjacencyEntry <==> (rotate_applies(
                            old(self)@,
                            edge.0,
                            edge.1,
                        ) && old(self).adjacency().lookup(edge.1) is None))
                    },
                }
            }),
    {
        let n = self.data.len();
        let can_self = if edge.0 == self.data[n - 1] && edge.1 == self.data[0] {
            true
        } else {
            let p0 = position_of(&self.data, edge.0);
            let p1 = position_of(&self.data, edge.1);
            p0.is_some() && p1.is_some()
        };
        proof {
            assert(can_self == rotate_applies(old(self)@, edge.0, edge.1));
        }
        if !can_self {
            return Err(CycleError::VertexNotFound);
        }
        let adj_table = self.adj;
        let oriented = match adj_table.get(edge.1) {
            None => {
                return Err(CycleError::MissingAdjacencyEntry);
            },
            Some(ns) => {
                let has = position_of(ns, oedge.0);
                if has.is_some() {
                    (oedge.0, oedge.1)
                } else {
                    (oedge.1, oedge.0)
                }
            },
        };
        proof {
            assert(oriented == resolved_seam(old(self).adjacency(), edge, oedge));
        }
        let m = other.data.len();
        let can_other = if oriented.0 == other.data[m - 1] && oriented.1 == other.data[0] {
            true
        } else {
            let q0 = position_of(&other.data, oriented.0);
            let q1 = position_of(&other.data, oriented.1);
            q0.is_some() && q1.is_some()
        };
        proof {
            assert(can_other == rotate_applies(old(other)@, oriented.0, oriented.1));
        }
        if !can_other {
            return Err(CycleError::VertexNotFound);
        }
        match self.rotate_to_edge(edge.0, edge.1) {
            Ok(()) => {},
            Err(e) => {
                return Err(e);
            },
        }
        match other.rotate_to_edge(oriented.0, oriented.1) {
            Ok(()) => {},
            Err(e) => {
                return Err(e);
            },
        }
        let ghost ra = self.data@;
        let ghost rb = other.data@;
        let mut tail = copy_vertices(&other.data);
        self.data.append(&mut tail);
        self.joined = true;
        proof {
            assert(self.data@ == ra + rb);
            vstd::seq_lib::lemma_multiset_commutative(ra, rb);
            crate::rotation::lemma_same_multiset_same_elements(old(self)@, ra);
            crate::rotation::lemma_same_multiset_same_elements(old(other)@, rb);
            assert forall|i: int, j: int|
                0 <= i < ra.len() && 0 <= j < rb.len() implies ra[i] != rb[j] by {
                assert(ra.contains(ra[i]) && rb.contains(rb[j]));
                assert(old(self)@.to_set().contains(ra[i]));
                assert(old(other)@.to_set().contains(rb[j]));
            }
            vstd::seq_lib::lemma_no_dup_in_concat(ra, rb);
            assert forall|i: int|
                0 <= i < self.data@.len() implies (self.data@[i] as int)
                < self.verts@.len() by {
                if i < ra.len() {
                    assert(self.data@[i] == ra[i]);
                } else {
                    assert(self.data@[i] == rb[i - ra.len()]);
                }
            }
        }
        Ok(())
    }

    /// The union of the edge-adjacency entries of every edge of the cycle's
    /// current edge set (obtained as `edges` returns it, cache included).
    /// Fails when some cycle edge is absent from the edge-adjacency map: the
    /// externally supplied graph is then inconsistent with the cycle.
    #[verifier::loop_isolation(false)]
    pub fn eadjs(&mut self) -> (r: Result<Vec<(u32, u32)>, CycleError>)
        requires
            old(self).wf(),
            old(self)@.len() > 0,
        ensures
            final(self).wf(),
            final(self)@ == old(self)@,
            final(self).flags_eq(*old(self)),
            final(self).ctx_eq(*old(self)),
            final(self).cache_key() == old(self)@,
            final(self).cached_filtered() == (if old(self).cache_fresh() {
                old(self).cached_filtered()
            } else {
                old(self).filtered_mode()
            }),
            ({
                let es = edge_set_for(
                    old(self)@,
                    old(self).verts_view(),
                    final(self).cached_filtered(),
                );
                match r {
                    Ok(out) => {
                        &&& forall|e: (u32, u32)| #[trigger]
                            es.contains(e) ==> old(self).edge_adjacency().lookup(e) is Some
                        &&& out@.no_duplicates()
                        &&& out@.to_set() == eadj_closure(es, old(self).edge_adjacency())
                    },
                    Err(err) => {
                        &&& err == CycleError::MissingEdgeAdjacencyEntry
                        &&& exists|e: (u32, u32)| #[trigger]
                            es.contains(e) && old(self).edge_adjacency().lookup(e) is None
                    },
                }
            }),
    {
        let evec = self.edges();
        let ea_table = self.edge_adj;
        let ghost es = evec@.to_set();
        let en = evec.len();
        let mut out: Vec<(u32, u32)> = Vec::new();
        let mut i: usize = 0;
        while i < en
            invariant
                en == evec@.len(),
                i <= en,
                ea_table.wf(),
                out@.no_duplicates(),
                out@.to_set() == eadj_closure(evec@.subrange(0, i as int).to_set(), *ea_table),
                forall|k: int| 0 <= k < i ==> (#[trigger] ea_table.lookup(evec@[k])) is Some,
            decreases en - i,
        {
            let e = evec[i];
            let ghost pfx = evec@.subrange(0, i as int).to_set();
            match ea_table.get(e) {
                None => {
                    proof {
                        assert(evec@[i as int] == e);
                        assert(evec@.contains(e));
                        assert(es.contains(e) && ea_table.lookup(e) is None);
                    }
                    return Err(CycleError::MissingEdgeAdjacencyEntry);
                },
                Some(ns) => {
                    let m = ns.len();
                    let mut j: usize = 0;
                    let ghost base = out@.to_set();
                    while j < m
                        invariant
                            m == ns@.len(),
                            j <= m,
                            out@.no_duplicates(),
                            out@.to_set() == base.union(ns@.subrange(0, j as int).to_set()),
                        decreases m - j,
                    {
                        let x = ns[j];
                        let ghost before = out@;
                        if !holds_edge(&out, x) {
                            out.push(x);
                            proof {
                                before.lemma_push_to_set_commute(x);
                                assert(out@.no_duplicates()) by {
                                    assert forall|k: int|
                                        0 <= k < before.len() implies out@[k] != x by {
                                        assert(out@[k] == before[k]);
                                    }
                                }
                            }
                        }
                        proof {
                            assert(ns@.subrange(0, j as int).push(ns@[j as int]) =~= ns@.subrange(
                                0,
                                j as int + 1,
                            ));
                            ns@.subrange(0, j as int).lemma_push_to_set_commute(ns@[j as int]);
                            assert(out@.to_set() =~= base.union(
                                ns@.subrange(0, j as int + 1).to_set(),
                            ));
                        }
                        j += 1;
                    }
                    proof {
                        assert(ns@.subrange(0, m as int) =~= ns@);
                        let pnext = evec@.subrange(0, i as int + 1).to_set();
                        assert(pnext == pfx.insert(evec@[i as int])) by {
                            evec@.subrange(0, i as int).lemma_push_to_set_commute(
                                evec@[i as int],
                            );
                            assert(evec@.subrange(0, i as int).push(evec@[i as int])
                                =~= evec@.subrange(0, i as int + 1));
                        }
                        assert(ea_table.lookup(e) == Some::<Seq<(u32, u32)>>(ns@));
                        assert(out@.to_set() =~= eadj_closure(pnext, *ea_table)) by {
                            assert forall|x: (u32, u32)| out@.to_set().contains(
                                x,
                            ) implies eadj_closure(pnext, *ea_table).contains(x) by {
                                if base.contains(x) {
                                    let e2 = choose|e2: (u32, u32)|
                                        #[trigger] pfx.contains(e2) && match ea_table.lookup(e2) {
                                            Some(ns2) => ns2.contains(x),
                                            None => false,
                                        };
                                    assert(pnext.contains(e2));
                                } else {
                                    assert(ns@.to_set().contains(x));
                                    assert(ns@.contains(x));
                                    assert(pnext.contains(e));
                                }
                            }
                            assert forall|x: (u32, u32)| eadj_closure(pnext, *ea_table).contains(
                                x,
                            ) implies out@.to_set().contains(x) by {
                                let e2 = choose|e2: (u32, u32)|
                                    #[trigger] pnext.contains(e2) && match ea_table.lookup(e2) {
                                        Some(ns2) => ns2.contains(x),
                                        None => false,
                                    };
                                if e2 == e {
                                    assert(ns@.contains(x));
                                    assert(ns@.to_set().contains(x));
                                } else {
                                    assert(pfx.contains(e2));
                                    assert(eadj_closure(pfx, *ea_table).contains(x));
                                }
                            }
                        }
                    }
                },
            }
            i += 1;
        }
        proof {
            assert(evec@.subrange(0, en as int) =~= evec@);
            assert forall|e: (u32, u32)| #[trigger] es.contains(e) implies ea_table.lookup(
                e,
            ) is Some by {
                assert(evec@.contains(e));
                let k = choose|k: int| 0 <= k < evec@.len() && evec@[k] == e;
                assert(ea_table.lookup(evec@[k]) is Some);
            }
        }
        Ok(out)
    }
}

/// Fusion length law: fusing vertex-disjoint simple cycles `a` and `b` at
/// properly oriented boundary pairs yields a sequence of length
/// `a.len() + b.len()` that holds every vertex of both exactly once, and
/// whose plain-mode edge set is the union of both edge sets, minus the two
/// consumed boundary edges, plus the two seam edges the merge introduces.
pub proof fn lemma_fusion(a: Seq<u32>, b: Seq<u32>, e: (u32, u32), o: (u32, u32))
    requires
        a.no_duplicates(),
        b.no_duplicates(),
        a.len() >= 3,
        b.len() >= 3,
        a.to_set().disjoint(b.to_set()),
        crate::rotation::seam_pair(a, e.0, e.1),
        crate::rotation::seam_pair(b, o.0, o.1),
    ensures
        rotate_applies(a, e.0, e.1),
        rotate_applies(b, o.0, o.1),
        ({
            let c = rotate_spec(a, e.0, e.1) + rotate_spec(b, o.0, o.1);
            &&& c.len() == a.len() + b.len()
            &&& c.to_multiset() == a.to_multiset().add(b.to_multiset())
            &&& c.no_duplicates()
            &&& plain_edges(c) == plain_edges(a).union(plain_edges(b)).remove(
                canon(e.0, e.1),
            ).remove(canon(o.0, o.1)).insert(canon(e.1, o.0)).insert(canon(o.1, e.0))
        }),
{
    let ra = rotate_spec(a, e.0, e.1);
    let rb = rotate_spec(b, o.0, o.1);
    let c = ra + rb;
    let ce = canon(e.0, e.1);
    let co = canon(o.0, o.1);
    let s1 = canon(e.1, o.0);
    let s2 = canon(o.1, e.0);
    crate::rotation::lemma_rotate_opens_seam(a, e.0, e.1);
    crate::rotation::lemma_rotate_opens_seam(b, o.0, o.1);
    lemma_rotate_preserves_cycle(a, e.0, e.1);
    lemma_rotate_preserves_cycle(b, o.0, o.1);
    vstd::seq_lib::lemma_multiset_commutative(ra, rb);
    crate::rotation::lemma_same_multiset_same_elements(a, ra);
    crate::rotation::lemma_same_multiset_same_elements(b, rb);
    assert forall|i: int, j: int|
        0 <= i < ra.len() && 0 <= j < rb.len() implies ra[i] != rb[j] by {
        assert(ra.contains(ra[i]) && rb.contains(rb[j]));
        assert(a.to_set().contains(ra[i]) && b.to_set().contains(rb[j]));
    }
    vstd::seq_lib::lemma_no_dup_in_concat(ra, rb);
    // the four special vertices belong to their own cycle
    assert(ra[0] == e.0 && ra[ra.len() - 1] == e.1 && rb[0] == o.0 && rb[rb.len() - 1] == o.1);
    assert(a.contains(e.0) && a.contains(e.1)) by {
        assert(ra.contains(e.0) && ra.contains(e.1));
        assert(a.to_set().contains(e.0) && a.to_set().contains(e.1));
    }
    assert(b.contains(o.0) && b.contains(o.1)) by {
        assert(rb.contains(o.0) && rb.contains(o.1));
        assert(b.to_set().contains(o.0) && b.to_set().contains(o.1));
    }
    // decompose the edge sets
    lemma_plain_edges_split(ra);
    lemma_plain_edges_split(rb);
    lemma_plain_edges_split(c);
    lemma_inner_edges_concat(ra, rb);
    lemma_wrap_edge_not_inner(ra);
    lemma_wrap_edge_not_inner(rb);
    assert(canon(ra.last(), ra.first()) == ce);
    assert(canon(rb.last(), rb.first()) == co);
    assert(c.last() == rb.last() && c.first() == ra.first());
    assert(canon(c.last(), c.first()) == s2);
    assert(canon(ra.last(), rb.first()) == s1);
    assert(inner_edges(ra) =~= plain_edges(a).remove(ce)) by {
        assert(plain_edges(ra) == inner_edges(ra).insert(ce));
        assert(!inner_edges(ra).contains(ce));
    }
    assert(inner_edges(rb) =~= plain_edges(b).remove(co)) by {
        assert(plain_edges(rb) == inner_edges(rb).insert(co));
        assert(!inner_edges(rb).contains(co));
    }
    // no edge crosses between the two vertex-disjoint cycles
    assert(!plain_edges(b).contains(ce)) by {
        if plain_edges(b).contains(ce) {
            lemma_edge_endpoints(b, ce);
            assert(b.contains(ce.0));
            assert(ce.0 == e.0 || ce.0 == e.1);
            assert(a.to_set().contains(ce.0) && b.to_set().contains(ce.0));
        }
    }
    assert(!plain_edges(a).contains(co)) by {
        if plain_edges(a).contains(co) {
            lemma_edge_endpoints(a, co);
            assert(a.contains(co.0));
            assert(co.0 == o.0 || co.0 == o.1);
            assert(a.to_set().contains(co.0) && b.to_set().contains(co.0));
        }
    }
    assert(!plain_edges(a).contains(s1) && !plain_edges(b).contains(s1)) by {
        if plain_edges(a).contains(s1) {
            lemma_edge_endpoints(a, s1);
            assert(a.contains(o.0));
            assert(a.to_set().contains(o.0) && b.to_set().contains(o.0));
        }
        if plain_edges(b).contains(s1) {
            lemma_edge_endpoints(b, s1);
            assert(b.contains(e.1));
            assert(a.to_set().contains(e.1) && b.to_set().contains(e.1));
        }
    }
    assert(!plain_edges(a).contains(s2) && !plain_edges(b).contains(s2)) by {
        if plain_edges(a).contains(s2) {
            lemma_edge_endpoints(a, s2);
            assert(a.contains(o.1));
            assert(a.to_set().contains(o.1) && b.to_set().contains(o.1));
        }
        if plain_edges(b).contains(s2) {
            lemma_edge_endpoints(b, s2);
            assert(b.contains(e.0));
            assert(a.to_set().contains(e.0) && b.to_set().contains(e.0));
        }
    }
    assert(plain_edges(c) =~= plain_edges(a).union(plain_edges(b)).remove(ce).remove(co).insert(
        s1,
    ).insert(s2));
}

/// The union of the edge-adjacency entries of every edge in `es`.
pub open spec fn eadj_closure(es: Set<(u32, u32)>, ea: EdgeAdjacency) -> Set<(u32, u32)> {
    Set::new(
        |x: (u32, u32)|
            exists|e: (u32, u32)|
                #[trigger] es.contains(e) && match ea.lookup(e) {
                    Some(ns) => ns.contains(x),
                    None => false,
                },
    )
}

/// The orientation of the partner's boundary edge that fusion resolves: the
/// pair is kept as given when the adjacency entry of `edge.1` holds
/// `oedge.0`, and swapped otherwise, so the merged walk stays continuous.
/// (The `None` arm is never consulted: fusion fails first.)
pub open spec fn resolved_seam(adj: Adjacency, edge: (u32, u32), oedge: (u32, u32)) -> (u32, u32) {
    match adj.lookup(edge.1) {
        Some(ns) => if ns.contains(oedge.0) {
            oedge
        } else {
            (oedge.1, oedge.0)
        },
        None => oedge,
    }
}

} // verus!
