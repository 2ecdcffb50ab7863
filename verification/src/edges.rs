//! Canonical edges of a cyclic vertex sequence.
//!
//! A canonical edge is an undirected vertex pair written with the smaller
//! identifier first.  A cyclic sequence of `n` vertices induces one canonical
//! edge per position: the pair of that vertex and its cyclic successor, the
//! last position wrapping around to the first.  Lead cycles keep only the
//! edges whose endpoint coordinates pass a geometric filter.

use vstd::prelude::*;

verus! {

/// The canonical form of an undirected edge: the smaller identifier first.
pub open spec fn canon(a: u32, b: u32) -> (u32, u32) {
    if a < b {
        (a, b)
    } else {
        (b, a)
    }
}

/// Canonicalizes an undirected edge so the smaller endpoint comes first.
pub fn canonical(a: u32, b: u32) -> (r: (u32, u32))
    ensures
        r == canon(a, b),
{
    if a < b {
        (a, b)
    } else {
        (b, a)
    }
}

/// The cyclic successor of position `i` in a sequence of this length.
pub open spec fn nxt(s: Seq<u32>, i: int) -> int {
    if i + 1 == s.len() {
        0
    } else {
        i + 1
    }
}

/// The canonical edge between position `i` and its cyclic successor.
pub open spec fn edge_at(s: Seq<u32>, i: int) -> (u32, u32) {
    canon(s[i], s[nxt(s, i)])
}

/// All consecutive canonical edges of the cyclic sequence, one per position.
pub open spec fn edge_seq(s: Seq<u32>) -> Seq<(u32, u32)> {
    Seq::new(s.len(), |i: int| edge_at(s, i))
}

/// The canonical edge set of a cyclic sequence (plain mode).
pub open spec fn plain_edges(s: Seq<u32>) -> Set<(u32, u32)> {
    edge_seq(s).to_set()
}

/// Sum of the first two coordinate components of both endpoints of `e`.
pub open spec fn coord_sum(verts: Seq<(i32, i32, i32)>, e: (u32, u32)) -> int {
    verts[e.0 as int].0 + verts[e.0 as int].1 + verts[e.1 as int].0 + verts[e.1 as int].1
}

/// The geometric filter for lead cycles: the coordinate sum lies in [3, 9).
pub open spec fn edge_exposed(verts: Seq<(i32, i32, i32)>, e: (u32, u32)) -> bool {
    3 <= coord_sum(verts, e) < 9
}

/// Whether a derivation pass keeps edge `e`: always in plain mode, only when
/// geometrically exposed in filtered mode.
pub open spec fn keep_edge(verts: Seq<(i32, i32, i32)>, filtered: bool, e: (u32, u32)) -> bool {
    !filtered || edge_exposed(verts, e)
}

/// The canonical edge set of a cyclic sequence in filtered mode.
pub open spec fn filtered_edges(s: Seq<u32>, verts: Seq<(i32, i32, i32)>) -> Set<(u32, u32)> {
    plain_edges(s).filter(|e: (u32, u32)| edge_exposed(verts, e))
}

/// The edge set a derivation pass returns for the given mode.
pub open spec fn edge_set_for(s: Seq<u32>, verts: Seq<(i32, i32, i32)>, filtered: bool) -> Set<
    (u32, u32),
> {
    if filtered {
        filtered_edges(s, verts)
    } else {
        plain_edges(s)
    }
}

/// What a derivation pass guarantees of its output vector: no duplicates, the
/// edge set of the requested mode and, for a simple cycle of length at least
/// three in plain mode, exactly one edge per sequence position, in order.
pub open spec fn edges_result_ok(
    r: Seq<(u32, u32)>,
    s: Seq<u32>,
    verts: Seq<(i32, i32, i32)>,
    filtered: bool,
) -> bool {
    &&& r.no_duplicates()
    &&& r.to_set() == edge_set_for(s, verts, filtered)
    &&& (!filtered && s.no_duplicates() && s.len() >= 3 ==> r == edge_seq(s))
}

/// The filtered edge set of a sequence is a subset of its plain edge set.
pub proof fn lemma_filtered_subset(s: Seq<u32>, verts: Seq<(i32, i32, i32)>)
    ensures
        filtered_edges(s, verts).subset_of(plain_edges(s)),
{
    assert forall|e: (u32, u32)| filtered_edges(s, verts).contains(e) implies plain_edges(
        s,
    ).contains(e) by {}
}

/// Two distinct positions of a simple cycle of length at least three give two
/// distinct canonical edges.
pub proof fn lemma_edges_pairwise_distinct(s: Seq<u32>, i: int, j: int)
    requires
        s.no_duplicates(),
        s.len() >= 3,
        0 <= i < j < s.len(),
    ensures
        edge_at(s, i) != edge_at(s, j),
{
    let n = s.len() as int;
    if edge_at(s, i) == edge_at(s, j) {
        // Canonical equality makes the unordered endpoint pairs coincide.
        assert((s[i] == s[j] && s[nxt(s, i)] == s[nxt(s, j)]) || (s[i] == s[nxt(s, j)] && s[nxt(
            s,
            i,
        )] == s[j]));
        if s[i] == s[j] {
            assert(s[i] != s[j]);
        } else {
            assert(nxt(s, i) == j) by {
                if nxt(s, i) < j {
                    assert(s[nxt(s, i)] != s[j]);
                } else if j < nxt(s, i) {
                    assert(s[j] != s[nxt(s, i)]);
                }
            }
            assert(i == nxt(s, j)) by {
                if i < nxt(s, j) {
                    assert(s[i] != s[nxt(s, j)]);
                } else if nxt(s, j) < i {
                    assert(s[nxt(s, j)] != s[i]);
                }
            }
            // nxt(s, i) == j with i < j forces j == i + 1; i == nxt(s, j) with
            // i < j forces i == 0 and j == n - 1, so n == 2.
            assert(j == i + 1);
            assert(i == 0 && j == n - 1);
            assert(false);
        }
    }
}

/// The edges contributed by the first `i` positions of the sequence in the
/// given mode.
pub open spec fn edge_set_upto(
    s: Seq<u32>,
    verts: Seq<(i32, i32, i32)>,
    filtered: bool,
    i: int,
) -> Set<(u32, u32)> {
    Set::new(
        |e: (u32, u32)|
            exists|j: int|
                0 <= j < i && e == #[trigger] edge_at(s, j) && keep_edge(verts, filtered, e),
    )
}

/// Once every position has contributed, the accumulated edges are the edge set
/// of the requested mode.
pub proof fn lemma_edge_set_upto_full(s: Seq<u32>, verts: Seq<(i32, i32, i32)>, filtered: bool)
    ensures
        edge_set_upto(s, verts, filtered, s.len() as int) == edge_set_for(s, verts, filtered),
{
    let n = s.len() as int;
    assert(edge_set_upto(s, verts, filtered, n) =~= edge_set_for(s, verts, filtered)) by {
        assert forall|e: (u32, u32)| edge_set_upto(s, verts, filtered, n).contains(
            e,
        ) implies edge_set_for(s, verts, filtered).contains(e) by {
            let j = choose|j: int|
                0 <= j < n && e == #[trigger] edge_at(s, j) && keep_edge(verts, filtered, e);
            assert(edge_seq(s)[j] == e);
            assert(edge_seq(s).contains(e));
        }
        assert forall|e: (u32, u32)| edge_set_for(s, verts, filtered).contains(
            e,
        ) implies edge_set_upto(s, verts, filtered, n).contains(e) by {
            assert(plain_edges(s).contains(e) && keep_edge(verts, filtered, e));
            let j = choose|j: int| 0 <= j < edge_seq(s).len() && edge_seq(s)[j] == e;
            assert(e == edge_at(s, j));
        }
    }
}

/// Linear scan for an edge in the output vector (the deduplication check).
pub(crate) fn holds_edge(v: &Vec<(u32, u32)>, e: (u32, u32)) -> (r: bool)
    ensures
        r == v@.contains(e),
{
    let n = v.len();
    let mut i: usize = 0;
    while i < n
        invariant
            n == v@.len(),
            i <= n,
            forall|j: int| 0 <= j < i ==> v@[j] != e,
        decreases n - i,
    {
        let c = v[i];
        if c.0 == e.0 && c.1 == e.1 {
            proof {
                assert(v@[i as int] == e);
            }
            return true;
        }
        i += 1;
    }
    false
}

/// A copy of an edge vector.
pub fn copy_edges(v: &Vec<(u32, u32)>) -> (r: Vec<(u32, u32)>)
    ensures
        r@ == v@,
{
    let n = v.len();
    let mut r: Vec<(u32, u32)> = Vec::new();
    let mut i: usize = 0;
    while i < n
        invariant
            n == v@.len(),
            i <= n,
            r@ == v@.subrange(0, i as int),
        decreases n - i,
    {
        r.push(v[i]);
        proof {
            assert(r@ =~= v@.subrange(0, i as int + 1));
        }
        i += 1;
    }
    proof {
        assert(r@ =~= v@);
    }
    r
}

/// Derives the canonical edge vector of the cyclic sequence `data`: one
/// consecutive pair per position with wrap-around, canonicalized and
/// deduplicated; in filtered mode only the geometrically exposed edges are
/// kept.
pub fn derive_edges(data: &Vec<u32>, verts: &[(i32, i32, i32)], filtered: bool) -> (r: Vec<
    (u32, u32),
>)
    requires
        data@.len() > 0,
        filtered ==> forall|k: int| 0 <= k < data@.len() ==> (data@[k] as int) < verts@.len(),
    ensures
        edges_result_ok(r@, data@, verts@, filtered),
{
    let n = data.len();
    let mut r: Vec<(u32, u32)> = Vec::new();
    let mut i: usize = 0;
    while i < n
        invariant
            n == data@.len(),
            0 < n,
            i <= n,
            filtered ==> forall|k: int| 0 <= k < data@.len() ==> (data@[k] as int) < verts@.len(),
            r@.no_duplicates(),
            r@.to_set() == edge_set_upto(data@, verts@, filtered, i as int),
            !filtered && data@.no_duplicates() && n >= 3 ==> r@ == edge_seq(data@).subrange(
                0,
                i as int,
            ),
        decreases n - i,
    {
        let a = data[i];
        let b = if i + 1 == n {
            data[0]
        } else {
            data[i + 1]
        };
        let e = canonical(a, b);
        proof {
            assert(e == edge_at(data@, i as int));
        }
        let keep = if filtered {
            let va = verts[a as usize];
            let vb = verts[b as usize];
            let t: i64 = va.0 as i64 + va.1 as i64 + vb.0 as i64 + vb.1 as i64;
            proof {
                assert(t == coord_sum(verts@, e));
            }
            3 <= t && t < 9
        } else {
            true
        };
        let ghost prev_set = r@.to_set();
        let ghost prev_seq = r@;
        if keep {
            if !holds_edge(&r, e) {
                r.push(e);
                proof {
                    prev_seq.lemma_push_to_set_commute(e);
                }
            }
        }
        proof {
            assert(r@.no_duplicates()) by {
                if keep && !prev_seq.contains(e) {
                    assert(r@ == prev_seq.push(e));
                    assert forall|j: int| 0 <= j < prev_seq.len() implies r@[j] != e by {
                        assert(r@[j] == prev_seq[j]);
                    }
                }
            }
            assert(r@.to_set() =~= edge_set_upto(data@, verts@, filtered, i as int + 1)) by {
                assert(keep == keep_edge(verts@, filtered, e));
                if keep {
                    assert(r@.to_set() == prev_set.insert(e));
                }
                assert forall|x: (u32, u32)|
                    edge_set_upto(data@, verts@, filtered, i as int + 1).contains(
                        x,
                    ) implies r@.to_set().contains(x) by {
                    let j = choose|j: int|
                        0 <= j < i as int + 1 && x == #[trigger] edge_at(data@, j) && keep_edge(
                            verts@,
                            filtered,
                            x,
                        );
                    if j < i as int {
                        assert(prev_set.contains(x));
                    }
                }
                assert forall|x: (u32, u32)| r@.to_set().contains(x) implies edge_set_upto(
                    data@,
                    verts@,
                    filtered,
                    i as int + 1,
                ).contains(x) by {
                    if prev_set.contains(x) {
                        let j = choose|j: int|
                            0 <= j < i as int && x == #[trigger] edge_at(data@, j) && keep_edge(
                                verts@,
                                filtered,
                                x,
                            );
                        assert(0 <= j < i as int + 1 && x == edge_at(data@, j));
                    } else {
                        assert(x == e);
                    }
                }
            }
            if !filtered && data@.no_duplicates() && n >= 3 {
                assert(!prev_seq.contains(e)) by {
                    if prev_seq.contains(e) {
                        let j = choose|j: int|
                            0 <= j < prev_seq.len() && prev_seq[j] == e;
                        assert(prev_seq[j] == edge_at(data@, j));
                        lemma_edges_pairwise_distinct(data@, j, i as int);
                    }
                }
                assert(r@ =~= edge_seq(data@).subrange(0, i as int + 1));
            }
        }
        i += 1;
    }
    proof {
        lemma_edge_set_upto_full(data@, verts@, filtered);
        if !filtered && data@.no_duplicates() && n >= 3 {
            assert(r@ =~= edge_seq(data@));
        }
    }
    r
}

/// The canonical edges between consecutive positions of the sequence, without
/// the wrap-around pair.
pub open spec fn inner_edges(s: Seq<u32>) -> Set<(u32, u32)> {
    Set::new(
        |e: (u32, u32)| exists|i: int| 0 <= i < s.len() - 1 && e == #[trigger] canon(s[i], s[i + 1]),
    )
}

/// The edge set of a cycle is its inner edges plus the wrap-around edge.
pub proof fn lemma_plain_edges_split(s: Seq<u32>)
    requires
        s.len() > 0,
    ensures
        plain_edges(s) == inner_edges(s).insert(canon(s.last(), s.first())),
{
    let n = s.len() as int;
    assert(plain_edges(s) =~= inner_edges(s).insert(canon(s.last(), s.first()))) by {
        assert forall|e: (u32, u32)| plain_edges(s).contains(e) implies inner_edges(s).insert(
            canon(s.last(), s.first()),
        ).contains(e) by {
            let i = choose|i: int| 0 <= i < edge_seq(s).len() && edge_seq(s)[i] == e;
            assert(e == edge_at(s, i));
            if i < n - 1 {
                assert(e == canon(s[i], s[i + 1]));
                assert(inner_edges(s).contains(e));
            } else {
                assert(e == canon(s[n - 1], s[0]));
            }
        }
        assert forall|e: (u32, u32)| inner_edges(s).insert(canon(s.last(), s.first())).contains(
            e,
        ) implies plain_edges(s).contains(e) by {
            if inner_edges(s).contains(e) {
                let i = choose|i: int| 0 <= i < s.len() - 1 && e == #[trigger] canon(s[i], s[i + 1]);
                assert(e == edge_at(s, i));
                assert(edge_seq(s)[i] == e);
                assert(edge_seq(s).contains(e));
            } else {
                assert(e == canon(s.last(), s.first()));
                assert(e == edge_at(s, n - 1));
                assert(edge_seq(s)[n - 1] == e);
                assert(edge_seq(s).contains(e));
            }
        }
    }
}

/// The inner edges of a concatenation are both parts' inner edges plus the
/// stitch pair between them.
pub proof fn lemma_inner_edges_concat(x: Seq<u32>, y: Seq<u32>)
    requires
        x.len() > 0,
        y.len() > 0,
    ensures
        inner_edges(x + y) == inner_edges(x).union(inner_edges(y)).insert(
            canon(x.last(), y.first()),
        ),
{
    let c = x + y;
    let nx = x.len() as int;
    let ny = y.len() as int;
    assert(inner_edges(c) =~= inner_edges(x).union(inner_edges(y)).insert(
        canon(x.last(), y.first()),
    )) by {
        assert forall|e: (u32, u32)| inner_edges(c).contains(e) implies inner_edges(x).union(
            inner_edges(y),
        ).insert(canon(x.last(), y.first())).contains(e) by {
            let i = choose|i: int| 0 <= i < c.len() - 1 && e == #[trigger] canon(c[i], c[i + 1]);
            if i < nx - 1 {
                assert(e == canon(x[i], x[i + 1]));
                assert(inner_edges(x).contains(e));
            } else if i == nx - 1 {
                assert(e == canon(x.last(), y.first()));
            } else {
                let j = i - nx;
                assert(e == canon(y[j], y[j + 1]));
                assert(inner_edges(y).contains(e));
            }
        }
        assert forall|e: (u32, u32)| inner_edges(x).union(inner_edges(y)).insert(
            canon(x.last(), y.first()),
        ).contains(e) implies inner_edges(c).contains(e) by {
            if inner_edges(x).contains(e) {
                let i = choose|i: int| 0 <= i < x.len() - 1 && e == #[trigger] canon(x[i], x[i + 1]);
                assert(c[i] == x[i] && c[i + 1] == x[i + 1]);
                assert(0 <= i < c.len() - 1 && e == canon(c[i], c[i + 1]));
                assert(inner_edges(c).contains(e));
            } else if inner_edges(y).contains(e) {
                let j = choose|j: int| 0 <= j < y.len() - 1 && e == #[trigger] canon(y[j], y[j + 1]);
                let i = nx + j;
                assert(c[i] == y[j] && c[i + 1] == y[j + 1]);
                assert(0 <= i < c.len() - 1 && e == canon(c[i], c[i + 1]));
                assert(inner_edges(c).contains(e));
            } else {
                assert(e == canon(x.last(), y.first()));
                let i = nx - 1;
                assert(c[i] == x.last() && c[i + 1] == y.first());
                assert(0 <= i < c.len() - 1 && e == canon(c[i], c[i + 1]));
                assert(inner_edges(c).contains(e));
            }
        }
    }
}

/// For a simple cycle of length at least three the wrap-around edge does not
/// occur among the inner edges.
pub proof fn lemma_wrap_edge_not_inner(s: Seq<u32>)
    requires
        s.no_duplicates(),
        s.len() >= 3,
    ensures
        !inner_edges(s).contains(canon(s.last(), s.first())),
{
    let n = s.len() as int;
    let w = canon(s.last(), s.first());
    if inner_edges(s).contains(w) {
        let i = choose|i: int| 0 <= i < s.len() - 1 && w == #[trigger] canon(s[i], s[i + 1]);
        assert(w == edge_at(s, i));
        assert(w == edge_at(s, n - 1));
        lemma_edges_pairwise_distinct(s, i, n - 1);
    }
}

/// Both endpoints of an edge of the cycle are vertices of the cycle.
pub proof fn lemma_edge_endpoints(s: Seq<u32>, e: (u32, u32))
    requires
        plain_edges(s).contains(e),
    ensures
        s.contains(e.0),
        s.contains(e.1),
{
    let i = choose|i: int| 0 <= i < edge_seq(s).len() && edge_seq(s)[i] == e;
    assert(e == edge_at(s, i));
    assert(s[i] == e.0 || s[i] == e.1);
    assert(s[nxt(s, i)] == e.0 || s[nxt(s, i)] == e.1);
    assert(0 <= nxt(s, i) < s.len());
}

} // verus!
