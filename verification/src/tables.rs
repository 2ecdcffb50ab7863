//! The shared, read-only graph context that cycles consult.
//!
//! Two lookup tables are kept as association lists with unique keys: the
//! vertex adjacency map (vertex to its neighbour vertices) and the edge
//! adjacency map (canonical edge to the canonical edges adjacent to it).
//! Cycles only read them; the driver builds them once and keeps them alive
//! for as long as any cycle refers to them.

use vstd::prelude::*;

verus! {

/// Mapping from a vertex identifier to the vertices adjacent to it.
pub struct Adjacency {
    entries: Vec<(u32, Vec<u32>)>,
}

impl Adjacency {
    /// The keys present in the table, in entry order.
    pub closed spec fn keys(self) -> Seq<u32> {
        self.entries@.map_values(|p: (u32, Vec<u32>)| p.0)
    }

    /// Each key occurs in one entry only.
    pub closed spec fn wf(self) -> bool {
        self.keys().no_duplicates()
    }

    /// The neighbour set recorded for vertex `v`, if any.
    pub closed spec fn lookup(self, v: u32) -> Option<Seq<u32>> {
        if exists|i: int| 0 <= i < self.entries@.len() && self.entries@[i].0 == v {
            let i = choose|i: int| 0 <= i < self.entries@.len() && self.entries@[i].0 == v;
            Some(self.entries@[i].1@)
        } else {
            None
        }
    }

    /// An empty table.
    pub fn new() -> (r: Adjacency)
        ensures
            r.wf(),
            forall|v: u32| r.lookup(v) is None,
    {
        let r = Adjacency { entries: Vec::new() };
        proof {
            assert(r.keys() =~= Seq::<u32>::empty());
        }
        r
    }

    /// Records the neighbours of a vertex not yet in the table.
    pub fn insert(&mut self, v: u32, neighbours: Vec<u32>)
        requires
            old(self).wf(),
            old(self).lookup(v) is None,
        ensures
            final(self).wf(),
            final(self).lookup(v) == Some::<Seq<u32>>(neighbours@),
            forall|k: u32| k != v ==> final(self).lookup(k) == old(self).lookup(k),
    {
        let ghost before = self.entries@;
        let n = self.entries.len();
        self.entries.push((v, neighbours));
        proof {
            assert forall|j: int| 0 <= j < before.len() implies before[j].0 != v by {
                if before[j].0 == v {
                    assert(old(self).lookup(v) is Some);
                }
            }
            assert(self.keys() =~= old(self).keys().push(v));
            assert(self.keys().no_duplicates()) by {
                assert forall|j: int| 0 <= j < before.len() implies old(self).keys()[j] != v by {
                    assert(old(self).keys()[j] == before[j].0);
                }
            }
            assert(self.lookup(v) == Some::<Seq<u32>>(neighbours@)) by {
                assert(self.entries@[n as int].0 == v);
                let i = choose|i: int| 0 <= i < self.entries@.len() && self.entries@[i].0 == v;
                if i < n {
                    assert(before[i].0 != v);
                }
            }
            assert forall|k: u32| k != v implies final(self).lookup(k) == old(self).lookup(k) by {
                if exists|i: int| 0 <= i < before.len() && before[i].0 == k {
                    let i = choose|i: int| 0 <= i < before.len() && before[i].0 == k;
                    assert(self.entries@[i].0 == k);
                    let i2 = choose|i2: int|
                        0 <= i2 < self.entries@.len() && self.entries@[i2].0 == k;
                    assert(self.keys()[i] == k && self.keys()[i2] == k);
                    assert(i2 == i);
                } else {
                    assert forall|i: int|
                        0 <= i < self.entries@.len() implies self.entries@[i].0 != k by {
                        if i < before.len() {
                            assert(before[i].0 != k);
                        }
                    }
                }
            }
        }
    }

    /// The neighbours of vertex `v`, if the table has an entry for it.
    pub fn get(&self, v: u32) -> (r: Option<&Vec<u32>>)
        requires
            self.wf(),
        ensures
            match r {
                Some(ns) => self.lookup(v) == Some::<Seq<u32>>(ns@),
                None => self.lookup(v) is None,
            },
    {
        let n = self.entries.len();
        let mut i: usize = 0;
        while i < n
            invariant
                n == self.entries@.len(),
                i <= n,
                self.wf(),
                forall|j: int| 0 <= j < i ==> self.entries@[j].0 != v,
            decreases n - i,
        {
            if self.entries[i].0 == v {
                proof {
                    assert(self.entries@[i as int].0 == v);
                    assert forall|j: int|
                        0 <= j < self.entries@.len() && (#[trigger] self.entries@[j]).0
                            == v implies j == i as int by {
                        assert(self.keys()[j] == v && self.keys()[i as int] == v);
                        if j < i as int {
                            assert(self.keys()[j] != self.keys()[i as int]);
                        } else if (i as int) < j {
                            assert(self.keys()[i as int] != self.keys()[j]);
                        }
                    }
                    assert(self.lookup(v) == Some::<Seq<u32>>(self.entries@[i as int].1@));
                }
                return Some(&self.entries[i].1);
            }
            i += 1;
        }
        proof {
            assert forall|j: int| 0 <= j < self.entries@.len() implies self.entries@[j].0 != v by {}
        }
        None
    }
}

/// Mapping from a canonical edge to the set of canonical edges adjacent to it.
pub struct EdgeAdjacency {
    entries: Vec<((u32, u32), Vec<(u32, u32)>)>,
}

impl EdgeAdjacency {
    /// The keys present in the table, in entry order.
    pub closed spec fn keys(self) -> Seq<(u32, u32)> {
        self.entries@.map_values(|p: ((u32, u32), Vec<(u32, u32)>)| p.0)
    }

    /// Each key occurs in one entry only.
    pub closed spec fn wf(self) -> bool {
        self.keys().no_duplicates()
    }

    /// The adjacent edges recorded for edge `e`, if any.
    pub closed spec fn lookup(self, e: (u32, u32)) -> Option<Seq<(u32, u32)>> {
        if exists|i: int| 0 <= i < self.entries@.len() && self.entries@[i].0 == e {
            let i = choose|i: int| 0 <= i < self.entries@.len() && self.entries@[i].0 == e;
            Some(self.entries@[i].1@)
        } else {
            None
        }
    }

    /// An empty table.
    pub fn new() -> (r: EdgeAdjacency)
        ensures
            r.wf(),
            forall|e: (u32, u32)| r.lookup(e) is None,
    {
        let r = EdgeAdjacency { entries: Vec::new() };
        proof {
            assert(r.keys() =~= Seq::<(u32, u32)>::empty());
        }
        r
    }

    /// Records the adjacent edges of an edge not yet in the table.
    pub fn insert(&mut self, e: (u32, u32), adjacent: Vec<(u32, u32)>)
        requires
            old(self).wf(),
            old(self).lookup(e) is None,
        ensures
            final(self).wf(),
            final(self).lookup(e) == Some::<Seq<(u32, u32)>>(adjacent@),
            forall|k: (u32, u32)| k != e ==> final(self).lookup(k) == old(self).lookup(k),
    {
        let ghost before = self.entries@;
        let n = self.entries.len();
        self.entries.push((e, adjacent));
        proof {
            assert forall|j: int| 0 <= j < before.len() implies before[j].0 != e by {
                if before[j].0 == e {
                    assert(old(self).lookup(e) is Some);
                }
            }
            assert(self.keys() =~= old(self).keys().push(e));
            assert(self.keys().no_duplicates()) by {
                assert forall|j: int| 0 <= j < before.len() implies old(self).keys()[j] != e by {
                    assert(old(self).keys()[j] == before[j].0);
                }
            }
            assert(self.lookup(e) == Some::<Seq<(u32, u32)>>(adjacent@)) by {
                assert(self.entries@[n as int].0 == e);
                let i = choose|i: int| 0 <= i < self.entries@.len() && self.entries@[i].0 == e;
                if i < n {
                    assert(before[i].0 != e);
                }
            }
            assert forall|k: (u32, u32)| k != e implies final(self).lookup(k) == old(self).lookup(
                k,
            ) by {
                if exists|i: int| 0 <= i < before.len() && before[i].0 == k {
                    let i = choose|i: int| 0 <= i < before.len() && before[i].0 == k;
                    assert(self.entries@[i].0 == k);
                    let i2 = choose|i2: int|
                        0 <= i2 < self.entries@.len() && self.entries@[i2].0 == k;
                    assert(self.keys()[i] == k && self.keys()[i2] == k);
                    assert(i2 == i);
                } else {
                    assert forall|i: int|
                        0 <= i < self.entries@.len() implies self.entries@[i].0 != k by {
                        if i < before.len() {
                            assert(before[i].0 != k);
                        }
                    }
                }
            }
        }
    }

    /// The adjacent edges of edge `e`, if the table has an entry for it.
    pub fn get(&self, e: (u32, u32)) -> (r: Option<&Vec<(u32, u32)>>)
        requires
            self.wf(),
        ensures
            match r {
                Some(adj) => self.lookup(e) == Some::<Seq<(u32, u32)>>(adj@),
                None => self.lookup(e) is None,
            },
    {
        let n = self.entries.len();
        let mut i: usize = 0;
        while i < n
            invariant
                n == self.entries@.len(),
                i <= n,
                self.wf(),
                forall|j: int| 0 <= j < i ==> self.entries@[j].0 != e,
            decreases n - i,
        {
            let k = self.entries[i].0;
            if k.0 == e.0 && k.1 == e.1 {
                proof {
                    assert(self.entries@[i as int].0 == e);
                    assert forall|j: int|
                        0 <= j < self.entries@.len() && (#[trigger] self.entries@[j]).0
                            == e implies j == i as int by {
                        assert(self.keys()[j] == e && self.keys()[i as int] == e);
                        if j < i as int {
                            assert(self.keys()[j] != self.keys()[i as int]);
                        } else if (i as int) < j {
                            assert(self.keys()[i as int] != self.keys()[j]);
                        }
                    }
                    assert(self.lookup(e) == Some::<Seq<(u32, u32)>>(
                        self.entries@[i as int].1@,
                    ));
                }
                return Some(&self.entries[i].1);
            }
            i += 1;
        }
        proof {
            assert forall|j: int| 0 <= j < self.entries@.len() implies self.entries@[j].0 != e by {}
        }
        None
    }
}

} // verus!
