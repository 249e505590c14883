//! A small graph interface, specially purposed for topological sorting.
//!
//! A graph is abstracted as a sequence of adjacency lists over integer node
//! indices: entry `i` lists, in order and with multiplicity, the indices of
//! the nodes that node `i` depends on.  The trait [`SimpleGraph`] exposes
//! that abstraction and provides a verified Kahn's-algorithm topological
//! sort with cycle detection: dependencies come out before their dependents,
//! and an error is returned exactly when no such complete ordering exists.

use vstd::prelude::*;
use vstd::set_lib::lemma_len_subset;
use vstd::set_lib::lemma_int_range;
use vstd::set_lib::set_int_range;
use crate::counting::count_not_in;
use crate::counting::count_occ;
use crate::counting::lemma_contains_push;
use crate::counting::lemma_count_not_in_empty;
use crate::counting::lemma_count_not_in_ge_occ;
use crate::counting::lemma_count_not_in_push;
use crate::counting::lemma_count_not_in_zero;
use crate::counting::lemma_count_occ_push;
use crate::counting::lemma_count_occ_take_le;
use crate::counting::lemma_count_occ_take_step;
use crate::counting::lemma_count_occ_zero;

verus! {

/// Every edge of `g` points at a valid node index.
pub open spec fn graph_in_bounds(g: Seq<Seq<usize>>) -> bool {
    forall|i: int, j: int|
        0 <= i < g.len() && 0 <= j < g[i].len() ==> (#[trigger] g[i][j]) < g.len()
}

/// In ordering `s`, the dependency `g[s[p]][j]` of the node at position `p`
/// already occurs at some earlier position.
pub open spec fn appears_before(g: Seq<Seq<usize>>, s: Seq<usize>, p: int, j: int) -> bool {
    exists|q: int| 0 <= q < p && s[q] == g[s[p] as int][j]
}

/// `s` is a complete dependencies-first ordering of `g`: it lists every node
/// exactly once, and each node's dependencies occur before the node itself.
pub open spec fn valid_topo(g: Seq<Seq<usize>>, s: Seq<usize>) -> bool {
    &&& s.len() == g.len()
    &&& forall|p: int| 0 <= p < s.len() ==> (#[trigger] s[p]) < g.len()
    &&& forall|p: int, q: int| 0 <= p < q < s.len() ==> s[p] != s[q]
    &&& forall|p: int, j: int|
        0 <= p < s.len() && 0 <= j < g[s[p] as int].len() ==> #[trigger] appears_before(g, s, p, j)
}

/// A duplicate-free sequence of indices below `n`, shorter than `n`, misses
/// some index below `n`.
proof fn lemma_missing_index(s: Seq<usize>, n: int)
    requires
        s.no_duplicates(),
        forall|p: int| 0 <= p < s.len() ==> (#[trigger] s[p]) < n,
        s.len() < n,
        n <= usize::MAX + 1,
    ensures
        exists|k: usize| k < n && !s.contains(k),
{
    if !(exists|k: usize| k < n && !s.contains(k)) {
        let t = s.map_values(|x: usize| x as int);
        assert(t.no_duplicates()) by {
            assert forall|p: int, q: int|
                0 <= p < t.len() && 0 <= q < t.len() && p != q implies t[p] != t[q] by {
                assert(s[p] != s[q]);
            }
        }
        t.unique_seq_to_set();
        vstd::seq_lib::seq_to_set_is_finite(t);
        assert(set_int_range(0, n).subset_of(t.to_set())) by {
            assert forall|x: int| set_int_range(0, n).contains(x) implies t.to_set().contains(
                x,
            ) by {
                let k = x as usize;
                assert(k < n && s.contains(k));
                let p = choose|p: int| 0 <= p < s.len() && s[p] == k;
                assert(t[p] == x);
                assert(t.contains(x));
            }
        }
        lemma_int_range(0, n);
        lemma_len_subset(set_int_range(0, n), t.to_set());
        assert(n <= t.to_set().len());
        assert(t.to_set().len() == t.len());
        assert(false);
    }
}

/// A duplicate-free sequence of `n` indices below `n` contains every index
/// below `n`.
proof fn lemma_full_seq_covers(s: Seq<usize>, n: int, k: usize)
    requires
        s.no_duplicates(),
        forall|p: int| 0 <= p < s.len() ==> (#[trigger] s[p]) < n,
        s.len() == n,
        n <= usize::MAX + 1,
        k < n,
    ensures
        s.contains(k),
{
    if !s.contains(k) {
        let t = s.push(k);
        assert(t.no_duplicates()) by {
            assert forall|p: int, q: int|
                0 <= p < t.len() && 0 <= q < t.len() && p != q implies t[p] != t[q] by {
                if p < s.len() && q < s.len() {
                    assert(s[p] != s[q]);
                } else if p < s.len() {
                    assert(t[q] == k && t[p] == s[p]);
                    if s[p] == k {
                        assert(s.contains(k));
                    }
                } else {
                    assert(t[p] == k && t[q] == s[q]);
                    if s[q] == k {
                        assert(s.contains(k));
                    }
                }
            }
        }
        let u = t.map_values(|x: usize| x as int);
        assert(u.no_duplicates()) by {
            assert forall|p: int, q: int|
                0 <= p < u.len() && 0 <= q < u.len() && p != q implies u[p] != u[q] by {
                assert(t[p] != t[q]);
            }
        }
        u.unique_seq_to_set();
        vstd::seq_lib::seq_to_set_is_finite(u);
        assert(u.to_set().subset_of(set_int_range(0, n))) by {
            assert forall|x: int| u.to_set().contains(x) implies set_int_range(0, n).contains(
                x,
            ) by {
                let p = choose|p: int| 0 <= p < u.len() && u[p] == x;
                assert(t[p] < n);
            }
        }
        lemma_int_range(0, n);
        lemma_len_subset(u.to_set(), set_int_range(0, n));
        assert(u.to_set().len() == u.len());
        assert(false);
    }
}

/// A graph over integer node indices, with enough structure for a
/// dependencies-first topological sort.
///
/// `children` lists what a node depends on (forward edges); `ancestors`
/// lists what depends on it (reverse edges).  `ancestors` and
/// `get_topological_order` come with default implementations; a graph with
/// a direct reverse-edge index should override `ancestors`, since the
/// default scans every adjacency list.
pub trait SimpleGraph {
    /// The abstract adjacency structure: entry `i` lists, in order and with
    /// multiplicity, the indices of the nodes that node `i` depends on.
    spec fn graph(&self) -> Seq<Seq<usize>>;

    /// What the graph's representation guarantees of itself; it must give
    /// at least that every edge stays in bounds.
    spec fn wf(&self) -> bool;

    /// The demand on `wf`: a well-formed graph keeps its edges in bounds.
    proof fn wf_implies_bounds(&self)
        requires
            self.wf(),
        ensures
            graph_in_bounds(self.graph()),
    ;

    /// The number of nodes.
    fn node_count(&self) -> (n: usize)
        ensures
            n == self.graph().len(),
    ;

    /// The dependencies of node `i`, exactly as the adjacency list gives them.
    fn children(&self, i: usize) -> (v: Vec<usize>)
        requires
            i < self.graph().len(),
        ensures
            v@ == self.graph()[i as int],
    ;

    /// The dependents of node `i`: every node `j` occurs as often as `i`
    /// occurs among `j`'s dependencies.
    fn ancestors(&self, i: usize) -> (v: Vec<usize>)
        requires
            self.wf(),
            i < self.graph().len(),
        ensures
            forall|p: int| 0 <= p < v@.len() ==> (#[trigger] v@[p]) < self.graph().len(),
            forall|j: usize|
                j < self.graph().len() ==> #[trigger] count_occ(v@, j) == count_occ(
                    self.graph()[j as int],
                    i,
                ),
    {
        proof {
            self.wf_implies_bounds();
        }
        let n = self.node_count();
        let mut v: Vec<usize> = Vec::new();
        let mut other: usize = 0;
        while other < n
            invariant
                n == self.graph().len(),
                graph_in_bounds(self.graph()),
                i < self.graph().len(),
                other <= n,
                forall|p: int| 0 <= p < v@.len() ==> (#[trigger] v@[p]) < self.graph().len(),
                forall|j: usize|
                    j < other ==> #[trigger] count_occ(v@, j) == count_occ(
                        self.graph()[j as int],
                        i,
                    ),
                forall|j: usize|
                    other <= j < self.graph().len() ==> #[trigger] count_occ(v@, j) == 0,
            decreases n - other,
        {
            let c = self.children(other);
            let ghost pre = v@;
            let mut q: usize = 0;
            while q < c.len()
                invariant
                    n == self.graph().len(),
                    graph_in_bounds(self.graph()),
                    i < self.graph().len(),
                    other < n,
                    c@ == self.graph()[other as int],
                    q <= c@.len(),
                    forall|p: int| 0 <= p < v@.len() ==> (#[trigger] v@[p]) < self.graph().len(),
                    count_occ(v@, other) == count_occ(c@.take(q as int), i),
                    forall|j: usize|
                        j < other ==> #[trigger] count_occ(v@, j) == count_occ(
                            self.graph()[j as int],
                            i,
                        ),
                    forall|j: usize|
                        other < j < self.graph().len() ==> #[trigger] count_occ(v@, j) == 0,
                decreases c@.len() - q,
            {
                proof {
                    lemma_count_occ_take_step(c@, q as int, i);
                }
                if c[q] == i {
                    let ghost before = v@;
                    v.push(other);
                    proof {
                        assert forall|j: usize| j < self.graph().len() implies #[trigger] count_occ(
                            v@,
                            j,
                        ) == count_occ(before, j) + (if j == other {
                            1nat
                        } else {
                            0nat
                        }) by {
                            lemma_count_occ_push(before, other, j);
                        }
                    }
                }
                q = q + 1;
            }
            proof {
                assert(c@.take(c@.len() as int) =~= c@);
            }
            other = other + 1;
        }
        v
    }

    /// A dependencies-first topological ordering of every node, found by
    /// Kahn's zero-in-degree peeling, or an error exactly when a circular
    /// dependency makes such an ordering impossible.
    ///
    /// When several nodes are ready at the same time, which one comes out
    /// first is unspecified; any pick yields a valid ordering.
    fn get_topological_order(&self) -> (r: Result<Vec<usize>, &'static str>)
        requires
            self.wf(),
        ensures
            match r {
                Ok(v) => valid_topo(self.graph(), v@),
                Err(_) => forall|s: Seq<usize>| !valid_topo(self.graph(), s),
            },
    {
        proof {
            self.wf_implies_bounds();
        }
        let ghost g = self.graph();
        let n = self.node_count();

        // in-degree of a node: how many of its dependencies are not yet emitted
        let mut in_degree: Vec<usize> = Vec::new();
        let mut i: usize = 0;
        while i < n
            invariant
                g == self.graph(),
                n == g.len(),
                i <= n,
                in_degree@.len() == i as int,
                forall|k: int| 0 <= k < i as int ==> #[trigger] in_degree@[k] == g[k].len(),
            decreases n - i,
        {
            let c = self.children(i);
            in_degree.push(c.len());
            i = i + 1;
        }

        // seed: every node with no dependency at all is ready at once
        let mut candidates: Vec<usize> = Vec::new();
        let mut i: usize = 0;
        while i < n
            invariant
                g == self.graph(),
                n == g.len(),
                i <= n,
                in_degree@.len() == n as int,
                forall|k: int| 0 <= k < n as int ==> #[trigger] in_degree@[k] == g[k].len(),
                forall|p: int| 0 <= p < candidates@.len() ==> (#[trigger] candidates@[p]) < i,
                candidates@.no_duplicates(),
                forall|q: int|
                    0 <= q < candidates@.len() ==> in_degree@[(#[trigger] candidates@[q]) as int]
                        == 0,
                forall|k: usize| k < i && in_degree@[k as int] == 0 ==> candidates@.contains(k),
            decreases n - i,
        {
            let deg = in_degree[i];
            if deg == 0 {
                let ghost before = candidates@;
                candidates.push(i);
                proof {
                    assert(candidates@.no_duplicates()) by {
                        assert forall|p: int, q: int|
                            0 <= p < candidates@.len() && 0 <= q < candidates@.len() && p
                                != q implies candidates@[p] != candidates@[q] by {
                            if p < before.len() && q < before.len() {
                                assert(before[p] != before[q]);
                            } else if p < before.len() {
                                assert(candidates@[q] == i && before[p] < i);
                            } else if q < before.len() {
                                assert(candidates@[p] == i && before[q] < i);
                            }
                        }
                    }
                    assert forall|k: usize|
                        k < i + 1 && in_degree@[k as int] == 0 implies candidates@.contains(k) by {
                        if k < i {
                            lemma_contains_push(before, i, k);
                        } else {
                            assert(candidates@[before.len() as int] == k);
                        }
                    }
                }
            } else {
                proof {
                    assert forall|k: usize|
                        k < i + 1 && in_degree@[k as int] == 0 implies candidates@.contains(k) by {
                        assert(k != i);
                    }
                }
            }
            i = i + 1;
        }

        // peel: emit a ready node, then release each of its dependents once
        // per edge from it
        let mut emitted: Vec<usize> = Vec::new();
        proof {
            assert forall|k: usize| k < n implies #[trigger] in_degree@[k as int] == count_not_in(
                g[k as int],
                emitted@,
            ) by {
                lemma_count_not_in_empty(g[k as int]);
            }
        }
        while candidates.len() > 0
            invariant
                self.wf(),
                g == self.graph(),
                n == g.len(),
                graph_in_bounds(g),
                in_degree@.len() == n as int,
                forall|p: int| 0 <= p < emitted@.len() ==> (#[trigger] emitted@[p]) < n,
                forall|p: int| 0 <= p < candidates@.len() ==> (#[trigger] candidates@[p]) < n,
                emitted@.no_duplicates(),
                candidates@.no_duplicates(),
                forall|p: int, q: int|
                    0 <= p < emitted@.len() && 0 <= q < candidates@.len() ==> emitted@[p]
                        != candidates@[q],
                forall|k: usize|
                    k < n ==> #[trigger] in_degree@[k as int] == count_not_in(
                        g[k as int],
                        emitted@,
                    ),
                forall|q: int|
                    0 <= q < candidates@.len() ==> in_degree@[(#[trigger] candidates@[q]) as int]
                        == 0,
                forall|k: usize|
                    k < n && in_degree@[k as int] == 0 && !emitted@.contains(k)
                        ==> candidates@.contains(k),
                forall|p: int, j: int|
                    0 <= p < emitted@.len() && 0 <= j < g[emitted@[p] as int].len()
                        ==> #[trigger] appears_before(g, emitted@, p, j),
            decreases n - emitted@.len(),
        {
            let ghost all_candidates = candidates@;
            let k = candidates.pop().unwrap();
            proof {
                assert(candidates@ =~= all_candidates.drop_last());
                assert(candidates@.no_duplicates()) by {
                    assert forall|p: int, q: int|
                        0 <= p < candidates@.len() && 0 <= q < candidates@.len() && p
                            != q implies candidates@[p] != candidates@[q] by {
                        assert(all_candidates[p] != all_candidates[q]);
                    }
                }
                assert(!candidates@.contains(k)) by {
                    if candidates@.contains(k) {
                        let q = choose|q: int|
                            0 <= q < candidates@.len() && candidates@[q] == k;
                        assert(all_candidates[q] == all_candidates[all_candidates.len() - 1]);
                    }
                }
                assert(!emitted@.contains(k)) by {
                    if emitted@.contains(k) {
                        let p = choose|p: int| 0 <= p < emitted@.len() && emitted@[p] == k;
                        assert(emitted@[p] != all_candidates[all_candidates.len() - 1]);
                    }
                }
                assert(in_degree@[k as int] == 0);
                assert forall|kk: usize|
                    kk < n && in_degree@[kk as int] == 0 && !emitted@.contains(kk) && kk
                        != k implies candidates@.contains(kk) by {
                    assert(all_candidates.contains(kk));
                    let q = choose|q: int|
                        0 <= q < all_candidates.len() && all_candidates[q] == kk;
                    assert(q != all_candidates.len() - 1);
                    assert(candidates@[q] == kk);
                }
            }
            let anc = self.ancestors(k);
            let ghost pre_emitted = emitted@;
            let mut p: usize = 0;
            proof {
                assert(anc@.take(0) =~= Seq::<usize>::empty());
            }
            while p < anc.len()
                invariant
                    g == self.graph(),
                    n == g.len(),
                    graph_in_bounds(g),
                    in_degree@.len() == n as int,
                    k < n,
                    emitted@ == pre_emitted,
                    p <= anc@.len(),
                    forall|t: int| 0 <= t < anc@.len() ==> (#[trigger] anc@[t]) < n,
                    forall|j: usize|
                        j < n ==> #[trigger] count_occ(anc@, j) == count_occ(g[j as int], k),
                    forall|t: int| 0 <= t < emitted@.len() ==> (#[trigger] emitted@[t]) < n,
                    forall|t: int| 0 <= t < candidates@.len() ==> (#[trigger] candidates@[t]) < n,
                    emitted@.no_duplicates(),
                    candidates@.no_duplicates(),
                    forall|t: int, q: int|
                        0 <= t < emitted@.len() && 0 <= q < candidates@.len() ==> emitted@[t]
                            != candidates@[q],
                    !emitted@.contains(k),
                    !candidates@.contains(k),
                    count_not_in(g[k as int], emitted@) == 0,
                    forall|j: usize|
                        j < n ==> #[trigger] in_degree@[j as int] + count_occ(
                            anc@.take(p as int),
                            j,
                        ) == count_not_in(g[j as int], emitted@),
                    forall|q: int|
                        0 <= q < candidates@.len() ==> in_degree@[(#[trigger] candidates@[q]) as int]
                            == 0,
                    forall|kk: usize|
                        kk < n && in_degree@[kk as int] == 0 && !emitted@.contains(kk) && kk != k
                            ==> candidates@.contains(kk),
                    forall|t: int, j: int|
                        0 <= t < emitted@.len() && 0 <= j < g[emitted@[t] as int].len()
                            ==> #[trigger] appears_before(g, emitted@, t, j),
                decreases anc@.len() - p,
            {
                let j = anc[p];
                proof {
                    lemma_count_occ_take_step(anc@, p as int, j);
                    lemma_count_occ_take_le(anc@, p as int + 1, j);
                    lemma_count_not_in_ge_occ(g[j as int], emitted@, k);
                    assert(in_degree@[j as int] >= 1);
                    // `k` cannot be its own ancestor here: all of its
                    // dependencies are already emitted, while `k` is not
                    assert(j != k) by {
                        lemma_count_not_in_ge_occ(g[k as int], emitted@, k);
                        lemma_count_occ_take_le(anc@, p as int + 1, k);
                        if j == k {
                            assert(count_occ(anc@.take(p as int + 1), k) >= 1);
                        }
                    }
                }
                let ghost deg0 = in_degree@;
                let dj = in_degree[j];
                in_degree[j] = dj - 1;
                let ghost deg1 = in_degree@;
                if dj == 1 {
                    proof {
                        // `j` was not yet ready, so it sits in neither list
                        assert(!candidates@.contains(j)) by {
                            if candidates@.contains(j) {
                                let q = choose|q: int|
                                    0 <= q < candidates@.len() && candidates@[q] == j;
                                assert(deg0[candidates@[q] as int] == 0);
                            }
                        }
                        assert(!emitted@.contains(j)) by {
                            if emitted@.contains(j) {
                                let t = choose|t: int|
                                    0 <= t < emitted@.len() && emitted@[t] == j;
                                lemma_count_occ_zero(g[j as int], k);
                                assert(g[j as int].contains(k));
                                let e = choose|e: int|
                                    0 <= e < g[j as int].len() && g[j as int][e] == k;
                                assert(appears_before(g, emitted@, t, e));
                                let q = choose|q: int|
                                    0 <= q < t && emitted@[q] == g[emitted@[t] as int][e];
                                assert(emitted@.contains(k));
                            }
                        }
                    }
                    let ghost before = candidates@;
                    candidates.push(j);
                    proof {
                        assert(candidates@.no_duplicates()) by {
                            assert forall|t: int, q: int|
                                0 <= t < candidates@.len() && 0 <= q < candidates@.len() && t
                                    != q implies candidates@[t] != candidates@[q] by {
                                if t < before.len() && q < before.len() {
                                    assert(before[t] != before[q]);
                                } else if t < before.len() {
                                    assert(candidates@[q] == j);
                                    if before[t] == j {
                                        assert(before.contains(j));
                                    }
                                } else if q < before.len() {
                                    assert(candidates@[t] == j);
                                    if before[q] == j {
                                        assert(before.contains(j));
                                    }
                                }
                            }
                        }
                        assert forall|kk: usize|
                            kk < n && deg1[kk as int] == 0 && !emitted@.contains(kk) && kk
                                != k implies candidates@.contains(kk) by {
                            if kk == j {
                                assert(candidates@[before.len() as int] == j);
                            } else {
                                assert(deg0[kk as int] == 0);
                                lemma_contains_push(before, j, kk);
                            }
                        }
                        assert(!candidates@.contains(k)) by {
                            lemma_contains_push(before, j, k);
                        }
                    }
                } else {
                    proof {
                        assert forall|kk: usize|
                            kk < n && deg1[kk as int] == 0 && !emitted@.contains(kk) && kk
                                != k implies candidates@.contains(kk) by {
                            assert(kk != j);
                            assert(deg0[kk as int] == 0);
                        }
                    }
                }
                proof {
                    assert forall|jj: usize|
                        jj < n implies #[trigger] in_degree@[jj as int] + count_occ(
                        anc@.take(p as int + 1),
                        jj,
                    ) == count_not_in(g[jj as int], emitted@) by {
                        lemma_count_occ_take_step(anc@, p as int, jj);
                    }
                }
                p = p + 1;
            }
            proof {
                assert(anc@.take(anc@.len() as int) =~= anc@);
            }
            emitted.push(k);
            proof {
                assert(emitted@ == pre_emitted.push(k));
                assert(emitted@.no_duplicates()) by {
                    assert forall|t: int, q: int|
                        0 <= t < emitted@.len() && 0 <= q < emitted@.len() && t
                            != q implies emitted@[t] != emitted@[q] by {
                        if t < pre_emitted.len() && q < pre_emitted.len() {
                            assert(pre_emitted[t] != pre_emitted[q]);
                        } else if t < pre_emitted.len() {
                            assert(emitted@[q] == k);
                            if pre_emitted[t] == k {
                                assert(pre_emitted.contains(k));
                            }
                        } else if q < pre_emitted.len() {
                            assert(emitted@[t] == k);
                            if pre_emitted[q] == k {
                                assert(pre_emitted.contains(k));
                            }
                        }
                    }
                }
                // each dependent loses exactly its edges from `k`
                assert forall|kk: usize| kk < n implies #[trigger] in_degree@[kk as int]
                    == count_not_in(g[kk as int], emitted@) by {
                    lemma_count_not_in_push(g[kk as int], pre_emitted, k);
                }
                // a newly complete prefix: all of k's dependencies were emitted
                lemma_count_not_in_zero(g[k as int], pre_emitted);
                assert forall|t: int, j: int|
                    0 <= t < emitted@.len() && 0 <= j < g[emitted@[t] as int].len()
                        implies #[trigger] appears_before(g, emitted@, t, j) by {
                    if t < pre_emitted.len() {
                        assert(appears_before(g, pre_emitted, t, j));
                        let q = choose|q: int|
                            0 <= q < t && pre_emitted[q] == g[pre_emitted[t] as int][j];
                        assert(emitted@[q] == g[emitted@[t] as int][j]);
                    } else {
                        assert(emitted@[t] == k);
                        assert(pre_emitted.contains(g[k as int][j]));
                        let q = choose|q: int|
                            0 <= q < pre_emitted.len() && pre_emitted[q] == g[k as int][j];
                        assert(emitted@[q] == g[emitted@[t] as int][j]);
                    }
                }
                // disjointness and candidate readiness carry over unchanged
                assert forall|t: int, q: int|
                    0 <= t < emitted@.len() && 0 <= q < candidates@.len() implies emitted@[t]
                        != candidates@[q] by {
                    if t < pre_emitted.len() {
                        assert(pre_emitted[t] != candidates@[q]);
                    } else {
                        assert(emitted@[t] == k && !candidates@.contains(k));
                        if candidates@[q] == k {
                            assert(candidates@.contains(k));
                        }
                    }
                }
                assert forall|kk: usize|
                    kk < n && in_degree@[kk as int] == 0 && !emitted@.contains(
                        kk,
                    ) implies candidates@.contains(kk) by {
                    lemma_contains_push(pre_emitted, k, kk);
                }
                lemma_distinct_bounded_len(emitted@, n as int);
            }
        }
        if emitted.len() == n {
            proof {
                assert(valid_topo(g, emitted@)) by {
                    assert forall|t: int, q: int|
                        0 <= t < q < emitted@.len() implies emitted@[t] != emitted@[q] by {
                        assert(emitted@.no_duplicates());
                    }
                }
            }
            Ok(emitted)
        } else {
            proof {
                lemma_distinct_bounded_len(emitted@, n as int);
                lemma_missing_index(emitted@, n as int);
                assert forall|i: usize|
                    i < n && !emitted@.contains(i) implies count_not_in(
                    #[trigger] g[i as int],
                    emitted@,
                ) > 0 by {
                    if count_not_in(g[i as int], emitted@) == 0 {
                        assert(in_degree@[i as int] == 0);
                        assert(candidates@.contains(i));
                    }
                }
                lemma_stalled_has_no_topo(g, emitted@, n as int);
            }
            Err("Circular dependency detected!")
        }
    }
}

/// A duplicate-free sequence of indices below `n` has at most `n` elements.
proof fn lemma_distinct_bounded_len(s: Seq<usize>, n: int)
    requires
        s.no_duplicates(),
        forall|p: int| 0 <= p < s.len() ==> (#[trigger] s[p]) < n,
        0 <= n <= usize::MAX + 1,
    ensures
        s.len() <= n,
{
    let t = s.map_values(|x: usize| x as int);
    assert(t.no_duplicates()) by {
        assert forall|p: int, q: int|
            0 <= p < t.len() && 0 <= q < t.len() && p != q implies t[p] != t[q] by {
            assert(s[p] != s[q]);
        }
    }
    t.unique_seq_to_set();
    vstd::seq_lib::seq_to_set_is_finite(t);
    assert(t.to_set().subset_of(set_int_range(0, n))) by {
        assert forall|x: int| t.to_set().contains(x) implies set_int_range(0, n).contains(x) by {
            let p = choose|p: int| 0 <= p < t.len() && t[p] == x;
            assert(s[p] < n);
        }
    }
    lemma_int_range(0, n);
    lemma_len_subset(t.to_set(), set_int_range(0, n));
}

/// The covering fact of a complete ordering, with distinctness stated
/// pairwise: `n` distinct indices below `n` include every index below `n`.
pub(crate) proof fn lemma_covering(s: Seq<usize>, n: int, k: usize)
    requires
        s.len() == n,
        k < n,
        n <= usize::MAX + 1,
        forall|t: int| 0 <= t < s.len() ==> (#[trigger] s[t]) < n,
        forall|t1: int, t2: int| 0 <= t1 < t2 < s.len() ==> s[t1] != s[t2],
    ensures
        s.contains(k),
{
    assert(s.no_duplicates()) by {
        assert forall|t1: int, t2: int|
            0 <= t1 < s.len() && 0 <= t2 < s.len() && t1 != t2 implies s[t1] != s[t2] by {
            if t1 < t2 {
                assert(s[t1] != s[t2]);
            } else {
                assert(s[t2] != s[t1]);
            }
        }
    }
    lemma_full_seq_covers(s, n, k);
}

/// Among the positions of `s` holding a value outside `done`, there is a
/// first one, given that there is one at all.
proof fn lemma_first_escape(s: Seq<usize>, done: Seq<usize>, p: int)
    requires
        0 <= p < s.len(),
        !done.contains(s[p]),
    ensures
        exists|m: int|
            0 <= m < s.len() && !done.contains(#[trigger] s[m]) && (forall|q: int|
                0 <= q < m ==> done.contains(#[trigger] s[q])),
    decreases p,
{
    if forall|q: int| 0 <= q < p ==> done.contains(#[trigger] s[q]) {
        assert(0 <= p < s.len() && !done.contains(s[p]) && (forall|q: int|
            0 <= q < p ==> done.contains(#[trigger] s[q])));
    } else {
        let q0 = choose|q: int| 0 <= q < p && !done.contains(#[trigger] s[q]);
        lemma_first_escape(s, done, q0);
    }
}

/// If some node lies outside `done` while every node outside `done` keeps at
/// least one dependency outside `done`, then no complete dependencies-first
/// ordering of `g` exists: the nodes outside `done` are trapped in a cycle.
proof fn lemma_stalled_has_no_topo(g: Seq<Seq<usize>>, done: Seq<usize>, n: int)
    requires
        graph_in_bounds(g),
        g.len() == n,
        n <= usize::MAX + 1,
        exists|i: usize| i < n && !done.contains(i),
        forall|i: usize| i < n && !done.contains(i) ==> count_not_in(#[trigger] g[i as int], done) > 0,
    ensures
        forall|s: Seq<usize>| !valid_topo(g, s),
{
    assert forall|s: Seq<usize>| !valid_topo(g, s) by {
        if valid_topo(g, s) {
            assert(s.no_duplicates()) by {
                assert forall|p: int, q: int|
                    0 <= p < s.len() && 0 <= q < s.len() && p != q implies s[p] != s[q] by {
                    if p < q {
                        assert(s[p] != s[q]);
                    } else {
                        assert(s[q] != s[p]);
                    }
                }
            }
            let i0 = choose|i: usize| i < n && !done.contains(i);
            lemma_full_seq_covers(s, n, i0);
            let p0 = choose|p: int| 0 <= p < s.len() && s[p] == i0;
            lemma_first_escape(s, done, p0);
            let m = choose|m: int|
                0 <= m < s.len() && !done.contains(#[trigger] s[m]) && (forall|q: int|
                    0 <= q < m ==> done.contains(#[trigger] s[q]));
            let i = s[m];
            assert(count_not_in(g[i as int], done) > 0);
            lemma_count_not_in_zero(g[i as int], done);
            let j = choose|j: int| 0 <= j < g[i as int].len() && !done.contains(g[i as int][j]);
            assert(appears_before(g, s, m, j));
            let q = choose|q: int| 0 <= q < m && s[q] == g[s[m] as int][j];
            assert(done.contains(s[q]));
            assert(false);
        }
    }
}

} // verus!
