//! Reorientation of a cyclic vertex sequence.
//!
//! A cycle's sequence can be rotated and reflected so that a chosen directed
//! edge becomes the seam at which the representation is opened.  The
//! reorientation changes only the starting point and the traversal direction:
//! the vertex multiset and the canonical edge set of the cyclic walk are
//! preserved.

use vstd::prelude::*;
use crate::edges::{canon, edge_at, edge_seq, nxt, plain_edges};

verus! {

/// `s` rotated left by `k` positions.
pub open spec fn rotl(s: Seq<u32>, k: int) -> Seq<u32> {
    s.subrange(k, s.len() as int) + s.subrange(0, k)
}

/// The position of vertex `x` in `s`; meaningful when `s` holds `x` exactly
/// once.
pub open spec fn pos_of(s: Seq<u32>, x: u32) -> int {
    choose|i: int| 0 <= i < s.len() && s[i] == x
}

/// Whether the reorientation for the pair `(left, right)` can be carried out:
/// either the pair already sits at the wrap-around boundary in forward
/// orientation, or both vertices occur in the sequence.
pub open spec fn rotate_applies(s: Seq<u32>, left: u32, right: u32) -> bool {
    (s.len() > 0 && left == s.last() && right == s.first()) || (s.contains(left) && s.contains(
        right,
    ))
}

/// The sequence after reorienting `s` to the pair `(left, right)`: reverse when
/// the pair already sits at the wrap-around boundary in forward orientation;
/// otherwise rotate `left` to the front when it follows `right`, and rotate
/// `right` to the front and reflect when it precedes it.
pub open spec fn rotate_spec(s: Seq<u32>, left: u32, right: u32) -> Seq<u32> {
    if s.len() > 0 && left == s.last() && right == s.first() {
        s.reverse()
    } else {
        let il = pos_of(s, left);
        let ir = pos_of(s, right);
        if il > ir {
            rotl(s, il)
        } else {
            rotl(s, ir).reverse()
        }
    }
}

/// A copy of the vertex vector.
pub fn copy_vertices(v: &Vec<u32>) -> (r: Vec<u32>)
    ensures
        r@ == v@,
{
    let n = v.len();
    let mut r: Vec<u32> = Vec::new();
    let mut i: usize = 0;
    while i < n
        invariant
            n == v@.len(),
            i <= n,
            r@ == v@.subrange(0, i as int),
        decreases n - i,
    {
        r.push(v[i]);
        proof {
            assert(r@ =~= v@.subrange(0, i as int + 1));
        }
        i += 1;
    }
    proof {
        assert(r@ =~= v@);
    }
    r
}

/// The vertex vector in reverse order.
pub fn reversed(v: &Vec<u32>) -> (r: Vec<u32>)
    ensures
        r@ == v@.reverse(),
{
    let n = v.len();
    let mut r: Vec<u32> = Vec::new();
    let mut i: usize = 0;
    while i < n
        invariant
            n == v@.len(),
            i <= n,
            r@.len() == i,
            forall|j: int| 0 <= j < i ==> r@[j] == v@[n - 1 - j],
        decreases n - i,
    {
        r.push(v[n - 1 - i]);
        i += 1;
    }
    proof {
        assert(r@ =~= v@.reverse());
    }
    r
}

/// The vertex vector rotated left by `k` positions.
pub fn rotated_left(v: &Vec<u32>, k: usize) -> (r: Vec<u32>)
    requires
        k <= v@.len(),
    ensures
        r@ == rotl(v@, k as int),
{
    let n = v.len();
    let mut r: Vec<u32> = Vec::new();
    let mut i: usize = k;
    while i < n
        invariant
            n == v@.len(),
            k <= i <= n,
            r@ == v@.subrange(k as int, i as int),
        decreases n - i,
    {
        r.push(v[i]);
        proof {
            assert(r@ =~= v@.subrange(k as int, i as int + 1));
        }
        i += 1;
    }
    let mut j: usize = 0;
    while j < k
        invariant
            n == v@.len(),
            k <= n,
            j <= k,
            r@ == v@.subrange(k as int, n as int) + v@.subrange(0, j as int),
        decreases k - j,
    {
        r.push(v[j]);
        proof {
            assert(r@ =~= v@.subrange(k as int, n as int) + v@.subrange(0, j as int + 1));
        }
        j += 1;
    }
    r
}

/// Whether two vertex vectors hold the same sequence.
pub fn vecs_equal(a: &Vec<u32>, b: &Vec<u32>) -> (r: bool)
    ensures
        r == (a@ == b@),
{
    let n = a.len();
    if n != b.len() {
        proof {
            assert(a@ != b@);
        }
        return false;
    }
    let mut i: usize = 0;
    while i < n
        invariant
            n == a@.len(),
            n == b@.len(),
            i <= n,
            forall|j: int| 0 <= j < i ==> a@[j] == b@[j],
        decreases n - i,
    {
        if a[i] != b[i] {
            proof {
                assert(a@[i as int] != b@[i as int]);
            }
            return false;
        }
        i += 1;
    }
    proof {
        assert(a@ =~= b@);
    }
    true
}

/// The first position of `x` in `v`, scanning from the front.
pub fn position_of(v: &Vec<u32>, x: u32) -> (r: Option<usize>)
    ensures
        match r {
            Some(i) => i < v@.len() && v@[i as int] == x && v@.contains(x),
            None => !v@.contains(x),
        },
{
    let n = v.len();
    let mut i: usize = 0;
    while i < n
        invariant
            n == v@.len(),
            i <= n,
            forall|j: int| 0 <= j < i ==> v@[j] != x,
        decreases n - i,
    {
        if v[i] == x {
            proof {
                assert(v@[i as int] == x);
            }
            return Some(i);
        }
        i += 1;
    }
    None
}

/// A simple sequence holds each vertex at one position only.
pub proof fn lemma_pos_of_unique(s: Seq<u32>, x: u32, i: int)
    requires
        s.no_duplicates(),
        0 <= i < s.len(),
        s[i] == x,
    ensures
        pos_of(s, x) == i,
{
    let j = pos_of(s, x);
    assert(0 <= j < s.len() && s[j] == x);
    if i < j {
        assert(s[i] != s[j]);
    } else if j < i {
        assert(s[j] != s[i]);
    }
}

/// Rotating left preserves the multiset of elements.
pub proof fn lemma_rotl_multiset(s: Seq<u32>, k: int)
    requires
        0 <= k <= s.len(),
    ensures
        rotl(s, k).to_multiset() == s.to_multiset(),
{
    let a = s.subrange(0, k);
    let b = s.subrange(k, s.len() as int);
    assert(s == a + b);
    vstd::seq_lib::lemma_multiset_commutative(a, b);
    vstd::seq_lib::lemma_multiset_commutative(b, a);
    assert(a.to_multiset().add(b.to_multiset()) =~= b.to_multiset().add(a.to_multiset()));
}

/// Two sequences with the same multiset have the same elements, and a
/// permutation of a simple sequence is simple.
pub proof fn lemma_same_multiset_same_elements(a: Seq<u32>, b: Seq<u32>)
    requires
        a.to_multiset() == b.to_multiset(),
    ensures
        a.to_set() == b.to_set(),
        a.len() == b.len(),
        a.no_duplicates() ==> b.no_duplicates(),
{
    broadcast use vstd::seq_lib::to_multiset_contains;

    assert(a.to_set() =~= b.to_set()) by {
        assert forall|x: u32| a.contains(x) <==> b.contains(x) by {
            assert(a.contains(x) <==> a.to_multiset().count(x) > 0);
            assert(b.contains(x) <==> b.to_multiset().count(x) > 0);
        }
    }
    assert(a.len() == a.to_multiset().len() && b.len() == b.to_multiset().len()) by {
        a.to_multiset_ensures();
        b.to_multiset_ensures();
    }
    if a.no_duplicates() {
        a.lemma_multiset_has_no_duplicates();
        b.lemma_multiset_has_no_duplicates_conv();
    }
}

/// The index of `s` that position `i` of `rotl(s, k)` comes from.
pub open spec fn unrot(i: int, k: int, n: int) -> int {
    if i + k < n {
        i + k
    } else {
        i + k - n
    }
}

/// Each cyclic edge of a rotated sequence is a cyclic edge of the original,
/// taken at the shifted position.
pub proof fn lemma_rotl_edge_at(s: Seq<u32>, k: int, i: int)
    requires
        0 <= k <= s.len(),
        0 <= i < s.len(),
    ensures
        edge_at(rotl(s, k), i) == edge_at(s, unrot(i, k, s.len() as int)),
{
    let n = s.len() as int;
    let t = rotl(s, k);
    let j = unrot(i, k, n);
    assert(t.len() == n);
    assert(t[i] == s[j]);
    assert(t[nxt(t, i)] == s[nxt(s, j)]) by {
        let i2 = nxt(t, i);
        let j2 = nxt(s, j);
        assert(0 <= i2 < n && 0 <= j2 < n);
        assert(j2 == unrot(i2, k, n));
        assert(t[i2] == s[unrot(i2, k, n)]);
    }
}

/// Rotating left preserves the canonical edge set of the cyclic walk.
pub proof fn lemma_rotl_edges(s: Seq<u32>, k: int)
    requires
        0 <= k <= s.len(),
    ensures
        plain_edges(rotl(s, k)) == plain_edges(s),
{
    let n = s.len() as int;
    let t = rotl(s, k);
    assert(t.len() == n);
    assert(plain_edges(t) =~= plain_edges(s)) by {
        assert forall|e: (u32, u32)| plain_edges(t).contains(e) implies plain_edges(s).contains(
            e,
        ) by {
            let i = choose|i: int| 0 <= i < edge_seq(t).len() && edge_seq(t)[i] == e;
            lemma_rotl_edge_at(s, k, i);
            let j = unrot(i, k, n);
            assert(edge_seq(s)[j] == e);
            assert(edge_seq(s).contains(e));
        }
        assert forall|e: (u32, u32)| plain_edges(s).contains(e) implies plain_edges(t).contains(
            e,
        ) by {
            let j = choose|j: int| 0 <= j < edge_seq(s).len() && edge_seq(s)[j] == e;
            let i = if j - k >= 0 {
                j - k
            } else {
                j - k + n
            };
            assert(unrot(i, k, n) == j);
            lemma_rotl_edge_at(s, k, i);
            assert(edge_seq(t)[i] == e);
            assert(edge_seq(t).contains(e));
        }
    }
}

/// Each cyclic edge of a reversed sequence is a cyclic edge of the original,
/// taken at the mirrored position.
pub proof fn lemma_reverse_edge_at(s: Seq<u32>, i: int)
    requires
        0 <= i < s.len(),
    ensures
        edge_at(s.reverse(), i) == edge_at(s, if i == s.len() - 1 { i } else { s.len() - 2 - i }),
{
    let n = s.len() as int;
    let t = s.reverse();
    assert(t.len() == n);
    if i == n - 1 {
        assert(t[i] == s[0] && t[nxt(t, i)] == s[n - 1]);
    } else {
        let j = n - 2 - i;
        assert(t[i] == s[n - 1 - i] && t[i + 1] == s[j]);
        assert(nxt(s, j) == n - 1 - i);
    }
}

/// Reversing preserves the canonical edge set of the cyclic walk.
pub proof fn lemma_reverse_edges(s: Seq<u32>)
    ensures
        plain_edges(s.reverse()) == plain_edges(s),
{
    let n = s.len() as int;
    let t = s.reverse();
    if n == 0 {
        assert(plain_edges(t) =~= plain_edges(s)) by {
            assert(edge_seq(t).len() == 0 && edge_seq(s).len() == 0);
        }
    } else {
        assert(plain_edges(t) =~= plain_edges(s)) by {
            assert forall|e: (u32, u32)| plain_edges(t).contains(e) implies plain_edges(
                s,
            ).contains(e) by {
                let i = choose|i: int| 0 <= i < edge_seq(t).len() && edge_seq(t)[i] == e;
                lemma_reverse_edge_at(s, i);
                let j = if i == n - 1 {
                    i
                } else {
                    n - 2 - i
                };
                assert(edge_seq(s)[j] == e);
                assert(edge_seq(s).contains(e));
            }
            assert forall|e: (u32, u32)| plain_edges(s).contains(e) implies plain_edges(
                t,
            ).contains(e) by {
                let j = choose|j: int| 0 <= j < edge_seq(s).len() && edge_seq(s)[j] == e;
                let i = if j == n - 1 {
                    j
                } else {
                    n - 2 - j
                };
                lemma_reverse_edge_at(s, i);
                assert(edge_seq(t)[i] == e);
                assert(edge_seq(t).contains(e));
            }
        }
    }
}

/// The pair `(left, right)` is a directed cyclic edge of `s` in an
/// orientation that reorientation can open: either the pair already sits at
/// the wrap-around boundary in forward orientation, or the two vertices sit
/// at neighbouring positions of the sequence, in either order.
pub open spec fn seam_pair(s: Seq<u32>, left: u32, right: u32) -> bool {
    ||| (s.len() > 0 && left == s.last() && right == s.first())
    ||| exists|i: int| 0 <= i < s.len() - 1 && (#[trigger] s[i]) == right && s[i + 1] == left
    ||| exists|i: int| 0 <= i < s.len() - 1 && (#[trigger] s[i]) == left && s[i + 1] == right
}

/// Reorienting a simple representation to a directed cyclic edge of it opens
/// the cycle exactly there: the result starts at `left` and ends at `right`,
/// so the pair becomes the wrap-around boundary.
pub proof fn lemma_rotate_opens_seam(s: Seq<u32>, left: u32, right: u32)
    requires
        s.no_duplicates(),
        s.len() >= 2,
        seam_pair(s, left, right),
    ensures
        rotate_applies(s, left, right),
        rotate_spec(s, left, right).first() == left,
        rotate_spec(s, left, right).last() == right,
{
    let n = s.len() as int;
    if s.len() > 0 && left == s.last() && right == s.first() {
        assert(s.reverse()[0] == s[n - 1]);
        assert(s.reverse()[n - 1] == s[0]);
    } else if exists|i: int|
        0 <= i < s.len() - 1 && (#[trigger] s[i]) == right && s[i + 1] == left {
        let i = choose|i: int|
            0 <= i < s.len() - 1 && (#[trigger] s[i]) == right && s[i + 1] == left;
        assert(s.contains(right) && s.contains(left));
        lemma_pos_of_unique(s, right, i);
        lemma_pos_of_unique(s, left, i + 1);
        let t = rotl(s, i + 1);
        assert(t[0] == s[i + 1]);
        assert(t[n - 1] == s[i]);
        assert(rotate_spec(s, left, right) == t);
    } else {
        let i = choose|i: int|
            0 <= i < s.len() - 1 && (#[trigger] s[i]) == left && s[i + 1] == right;
        assert(s.contains(left) && s.contains(right));
        lemma_pos_of_unique(s, left, i);
        lemma_pos_of_unique(s, right, i + 1);
        let t = rotl(s, i + 1);
        assert(t[0] == s[i + 1] && t[n - 1] == s[i]);
        let v = t.reverse();
        assert(v[0] == t[n - 1] && v[n - 1] == t[0]);
        assert(rotate_spec(s, left, right) == v);
    }
}

/// Reorienting to the pair that is already the seam — first vertex `left`,
/// last vertex `right` — leaves a representation of at most two vertices
/// unchanged.  A longer simple representation is reflected instead; see
/// `lemma_reorient_twice_restores`.
pub proof fn lemma_reorient_at_seam_short(s: Seq<u32>, left: u32, right: u32)
    requires
        s.no_duplicates(),
        1 <= s.len() <= 2,
        s.first() == left,
        s.last() == right,
    ensures
        rotate_spec(s, left, right) == s,
{
    if s.len() == 1 {
        assert(s.reverse() =~= s);
    } else {
        assert(s[0] != s[1]);
        lemma_pos_of_unique(s, left, 0);
        lemma_pos_of_unique(s, right, 1);
        let u = rotl(s, 1);
        assert(u.len() == 2 && u[0] == s[1] && u[1] == s[0]);
        assert(u.reverse() =~= s);
    }
}

/// Reorienting a representation whose seam pair is already `(left, right)` —
/// first vertex `left`, last vertex `right` — flips its traversal direction;
/// applying the same reorientation a second time restores the representation
/// exactly.
pub proof fn lemma_reorient_twice_restores(s: Seq<u32>, left: u32, right: u32)
    requires
        s.len() > 0,
        s.no_duplicates(),
        s.first() == left,
        s.last() == right,
    ensures
        rotate_spec(rotate_spec(s, left, right), left, right) == s,
{
    let n = s.len() as int;
    if n == 1 {
        // The seam pair degenerates to the only vertex: both applications
        // reverse a singleton, which is itself.
        assert(s.reverse() =~= s);
        assert(rotate_spec(s, left, right) == s);
    } else {
        assert(s[0] != s[n - 1]);
        lemma_pos_of_unique(s, left, 0);
        lemma_pos_of_unique(s, right, n - 1);
        let u = rotl(s, n - 1);
        let t = rotate_spec(s, left, right);
        assert(t == u.reverse());
        assert(u.len() == n && t.len() == n);
        assert forall|i: int| 0 <= i < n implies t[i] == (if i == n - 1 {
            s[n - 1]
        } else {
            s[n - 2 - i]
        }) by {
            assert(t[i] == u[n - 1 - i]);
            if i == n - 1 {
                assert(u[0] == s[n - 1]);
            } else {
                assert(u[n - 1 - i] == s[n - 2 - i]);
            }
        }
        lemma_rotate_preserves_cycle(s, left, right);
        assert(t[n - 2] == left && t[n - 1] == right);
        lemma_pos_of_unique(t, left, n - 2);
        lemma_pos_of_unique(t, right, n - 1);
        let u2 = rotl(t, n - 1);
        let t2 = rotate_spec(t, left, right);
        assert(t.len() > 0 && !(left == t.last() && right == t.first())) by {
            assert(t.last() == right && left != right);
        }
        assert(t2 == u2.reverse());
        assert(u2.len() == n && t2.len() == n);
        assert(t2 =~= s) by {
            assert forall|i: int| 0 <= i < n implies t2[i] == s[i] by {
                assert(t2[i] == u2[n - 1 - i]);
                if i == n - 1 {
                    assert(u2[0] == t[n - 1]);
                    assert(t[n - 1] == s[n - 1]);
                } else {
                    assert(u2[n - 1 - i] == t[n - 2 - i]);
                    assert(t[n - 2 - i] == s[i]);
                }
            }
        }
    }
}

/// Reorientation preserves the vertex multiset, the vertex set, the length,
/// simplicity, and the canonical edge set of the cyclic walk: only the start
/// position and the traversal direction change.
pub proof fn lemma_rotate_preserves_cycle(s: Seq<u32>, left: u32, right: u32)
    requires
        s.len() > 0,
        rotate_applies(s, left, right),
    ensures
        rotate_spec(s, left, right).to_multiset() == s.to_multiset(),
        rotate_spec(s, left, right).to_set() == s.to_set(),
        rotate_spec(s, left, right).len() == s.len(),
        s.no_duplicates() ==> rotate_spec(s, left, right).no_duplicates(),
        plain_edges(rotate_spec(s, left, right)) == plain_edges(s),
{
    let t = rotate_spec(s, left, right);
    if s.len() > 0 && left == s.last() && right == s.first() {
        s.lemma_reverse_to_multiset();
        lemma_reverse_edges(s);
        lemma_same_multiset_same_elements(s, t);
    } else {
        assert(s.contains(left) && s.contains(right));
        let il = pos_of(s, left);
        let ir = pos_of(s, right);
        assert(0 <= il < s.len() && s[il] == left);
        assert(0 <= ir < s.len() && s[ir] == right);
        if il > ir {
            lemma_rotl_multiset(s, il);
            lemma_rotl_edges(s, il);
            lemma_same_multiset_same_elements(s, t);
        } else {
            let u = rotl(s, ir);
            lemma_rotl_multiset(s, ir);
            lemma_rotl_edges(s, ir);
            u.lemma_reverse_to_multiset();
            lemma_reverse_edges(u);
            lemma_same_multiset_same_elements(s, t);
        }
    }
}

} // verus!
