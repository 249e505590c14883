//! From a topological ordering of the arena to an include order.
//!
//! [`spec_include_order`] says exactly what the forest's `include_order`
//! returns: the nodes of a topological ordering, filtered by whether their
//! path is absent, external nodes first.  [`lemma_include_order_ok`] derives
//! the properties a caller cares about: which nodes appear, that each
//! appears once, that external nodes lead, and that every dependency listed
//! comes before its dependent.

use vstd::prelude::*;
use crate::forest_wf;
use crate::graph_of;
use crate::node_wf;
use crate::NodeModel;
use crate::simple_graph::appears_before;
use crate::simple_graph::valid_topo;

verus! {

/// The position of `x` in a duplicate-free sequence.
pub open spec fn pos_in(ord: Seq<usize>, x: usize) -> int {
    choose|t: int| 0 <= t < ord.len() && ord[t] == x
}

/// In a duplicate-free sequence, `pos_in` is the one position holding `x`.
proof fn lemma_pos_in(ord: Seq<usize>, x: usize)
    requires
        ord.contains(x),
        forall|t1: int, t2: int| 0 <= t1 < t2 < ord.len() ==> ord[t1] != ord[t2],
    ensures
        0 <= pos_in(ord, x) < ord.len(),
        ord[pos_in(ord, x)] == x,
        forall|t: int| 0 <= t < ord.len() && ord[t] == x ==> t == pos_in(ord, x),
{
    let t0 = choose|t: int| 0 <= t < ord.len() && ord[t] == x;
    assert(ord[t0] == x);
    assert forall|t: int| 0 <= t < ord.len() && ord[t] == x implies t == pos_in(ord, x) by {
        if t < pos_in(ord, x) {
            assert(ord[t] != ord[pos_in(ord, x)]);
        } else if t > pos_in(ord, x) {
            assert(ord[pos_in(ord, x)] != ord[t]);
        }
    }
}

/// The subsequence of `ord` whose nodes have an absent path (when
/// `want_absent` is set) or a present one (when it is clear).
pub open spec fn sieve(nodes: Seq<NodeModel>, ord: Seq<usize>, want_absent: bool) -> Seq<usize>
    decreases ord.len(),
{
    if ord.len() == 0 {
        Seq::empty()
    } else {
        let prev = sieve(nodes, ord.drop_last(), want_absent);
        if ((nodes[ord.last() as int].path is None) == want_absent) {
            prev.push(ord.last())
        } else {
            prev
        }
    }
}

/// What `sieve` selects: exactly the matching elements of `ord`, each
/// once, in `ord`'s relative order.
proof fn lemma_sieve(nodes: Seq<NodeModel>, ord: Seq<usize>, want_absent: bool)
    requires
        forall|t: int| 0 <= t < ord.len() ==> (#[trigger] ord[t]) < nodes.len(),
        forall|t1: int, t2: int| 0 <= t1 < t2 < ord.len() ==> ord[t1] != ord[t2],
    ensures
        forall|q: int|
            0 <= q < sieve(nodes, ord, want_absent).len() ==> {
                let x = #[trigger] sieve(nodes, ord, want_absent)[q];
                &&& ord.contains(x)
                &&& x < nodes.len()
                &&& ((nodes[x as int].path is None) == want_absent)
            },
        forall|q1: int, q2: int|
            0 <= q1 < q2 < sieve(nodes, ord, want_absent).len() ==> sieve(nodes, ord, want_absent)[q1]
                != sieve(nodes, ord, want_absent)[q2],
        forall|x: usize|
            ord.contains(x) && ((nodes[x as int].path is None) == want_absent) ==> sieve(
                nodes,
                ord,
                want_absent,
            ).contains(x),
        forall|q1: int, q2: int|
            0 <= q1 < q2 < sieve(nodes, ord, want_absent).len() ==> pos_in(
                ord,
                sieve(nodes, ord, want_absent)[q1],
            ) < pos_in(ord, sieve(nodes, ord, want_absent)[q2]),
    decreases ord.len(),
{
    let s = sieve(nodes, ord, want_absent);
    if ord.len() == 0 {
        assert forall|x: usize| !ord.contains(x) by {
            if ord.contains(x) {
                let t = choose|t: int| 0 <= t < ord.len() && ord[t] == x;
            }
        }
    } else {
        let ordp = ord.drop_last();
        let e = ord.last();
        let prev = sieve(nodes, ordp, want_absent);
        lemma_sieve(nodes, ordp, want_absent);
        // membership in the prefix carries into the whole
        assert forall|y: usize| ordp.contains(y) implies ord.contains(y) by {
            let t = choose|t: int| 0 <= t < ordp.len() && ordp[t] == y;
            assert(ord[t] == y);
        }
        // the prefix's positions agree with the whole sequence's
        assert forall|y: usize| ordp.contains(y) implies pos_in(ord, y) == pos_in(ordp, y)
            && pos_in(ord, y) < ord.len() - 1 by {
            lemma_pos_in(ordp, y);
            lemma_pos_in(ord, y);
            assert(ord[pos_in(ordp, y)] == y);
        }
        // the last element sits at the last position
        if ord.contains(e) {
            lemma_pos_in(ord, e);
            assert(ord[ord.len() - 1] == e);
            assert(pos_in(ord, e) == ord.len() - 1);
        }
        assert(ord[ord.len() - 1] == e);
        assert(ord.contains(e));
        // the new element never sits in the prefix selection
        assert(!prev.contains(e)) by {
            if prev.contains(e) {
                let q = choose|q: int| 0 <= q < prev.len() && prev[q] == e;
                assert(ordp.contains(prev[q]));
                assert(pos_in(ord, e) < ord.len() - 1);
            }
        }
        // completeness
        assert forall|x: usize|
            ord.contains(x) && ((nodes[x as int].path is None) == want_absent) implies s.contains(
            x,
        ) by {
            lemma_pos_in(ord, x);
            let t = pos_in(ord, x);
            if t < ord.len() - 1 {
                assert(ordp[t] == x);
                assert(ordp.contains(x));
                assert(prev.contains(x));
                let q = choose|q: int| 0 <= q < prev.len() && prev[q] == x;
                assert(s[q] == x);
            } else {
                assert(x == e);
                assert(s[s.len() - 1] == x);
            }
        }
        // the remaining clauses, by cases on whether `e` was selected
        if ((nodes[e as int].path is None) == want_absent) {
            assert(s == prev.push(e));
            assert forall|q1: int, q2: int| 0 <= q1 < q2 < s.len() implies pos_in(ord, s[q1])
                < pos_in(ord, s[q2]) by {
                if q2 < prev.len() {
                    assert(prev[q1] == s[q1] && prev[q2] == s[q2]);
                    assert(ordp.contains(prev[q1]) && ordp.contains(prev[q2]));
                } else {
                    assert(s[q2] == e);
                    assert(ordp.contains(prev[q1]));
                    assert(pos_in(ord, s[q1]) < ord.len() - 1);
                }
            }
            assert forall|q1: int, q2: int| 0 <= q1 < q2 < s.len() implies s[q1] != s[q2] by {
                if q2 < prev.len() {
                } else {
                    if s[q1] == e {
                        assert(prev.contains(e));
                    }
                }
            }
        } else {
            assert(s == prev);
            assert forall|q1: int, q2: int| 0 <= q1 < q2 < s.len() implies pos_in(ord, s[q1])
                < pos_in(ord, s[q2]) by {
                assert(ordp.contains(prev[q1]) && ordp.contains(prev[q2]));
            }
        }
    }
}

/// What `include_order` returns for a given topological ordering: the
/// absent-path nodes of `ord` first when asked for, then the present-path
/// nodes, each side in `ord`'s relative order.
pub open spec fn spec_include_order(
    nodes: Seq<NodeModel>,
    ord: Seq<usize>,
    with_external: bool,
) -> Seq<NodeModel> {
    if with_external {
        sieve(nodes, ord, true).map_values(|x: usize| nodes[x as int]) + sieve(
            nodes,
            ord,
            false,
        ).map_values(|x: usize| nodes[x as int])
    } else {
        sieve(nodes, ord, false).map_values(|x: usize| nodes[x as int])
    }
}

/// Whether some listed node carries key `k`.
pub open spec fn key_in(v: Seq<NodeModel>, k: Seq<char>) -> bool {
    exists|q: int| 0 <= q < v.len() && v[q].key == k
}

/// The face of an include order: every element is a node of the forest and
/// no key repeats; with external nodes it lists every node, absent paths
/// first, without them only and all of the present-path nodes; and a
/// listed node's dependency, when listed itself, comes before the node.
pub open spec fn is_include_order(
    nodes: Seq<NodeModel>,
    v: Seq<NodeModel>,
    with_external: bool,
) -> bool {
    &&& forall|p: int|
        0 <= p < v.len() ==> exists|x: int| 0 <= x < nodes.len() && nodes[x] == #[trigger] v[p]
    &&& forall|p: int, q: int| 0 <= p < q < v.len() ==> v[p].key != v[q].key
    &&& (with_external ==> forall|x: int|
        0 <= x < nodes.len() ==> exists|p: int| 0 <= p < v.len() && v[p] == #[trigger] nodes[x])
    &&& (!with_external ==> forall|p: int| 0 <= p < v.len() ==> (#[trigger] v[p]).path is Some)
    &&& (!with_external ==> forall|x: int|
        0 <= x < nodes.len() && (#[trigger] nodes[x]).path is Some ==> exists|p: int|
            0 <= p < v.len() && v[p] == nodes[x])
    &&& (with_external ==> forall|p: int, q: int|
        0 <= p < q < v.len() && (#[trigger] v[q]).path is None ==> (#[trigger] v[p]).path is None)
    &&& forall|p: int, j: int|
        0 <= p < v.len() && 0 <= j < v[p].uses.len() && key_in(v, #[trigger] v[p].uses[j])
            ==> exists|q: int| 0 <= q < p && v[q].key == v[p].uses[j]
}

/// An include order built from any topological ordering of a well-formed
/// forest shows the face above.
/// Common setup facts shared by the clause lemmas below.
proof fn lemma_io_setup(nodes: Seq<NodeModel>, ord: Seq<usize>)
    requires
        forest_wf(nodes),
        valid_topo(graph_of(nodes), ord),
    ensures
        graph_of(nodes).len() == nodes.len(),
        ord.len() == nodes.len(),
        forall|t: int| 0 <= t < ord.len() ==> (#[trigger] ord[t]) < nodes.len(),
        forall|t1: int, t2: int| 0 <= t1 < t2 < ord.len() ==> ord[t1] != ord[t2],
{
}

/// Every listed element is a node of the forest.
proof fn lemma_io_membership(nodes: Seq<NodeModel>, ord: Seq<usize>, with_external: bool)
    requires
        forest_wf(nodes),
        valid_topo(graph_of(nodes), ord),
    ensures
        forall|p: int|
            0 <= p < spec_include_order(nodes, ord, with_external).len() ==> exists|x: int|
                0 <= x < nodes.len() && nodes[x] == #[trigger] spec_include_order(
                    nodes,
                    ord,
                    with_external,
                )[p],
{
    lemma_io_setup(nodes, ord);
    lemma_sieve(nodes, ord, true);
    lemma_sieve(nodes, ord, false);
    let v = spec_include_order(nodes, ord, with_external);
    let st = sieve(nodes, ord, true);
    let sf = sieve(nodes, ord, false);
    let off: int = if with_external {
        st.len() as int
    } else {
        0
    };
    assert forall|p: int| 0 <= p < v.len() implies exists|x: int|
        0 <= x < nodes.len() && nodes[x] == #[trigger] v[p] by {
        let x = if with_external && p < off {
            st[p]
        } else {
            sf[p - off]
        };
        assert(0 <= (x as int) < nodes.len() && nodes[x as int] == v[p]);
    }
}

/// No key appears twice in the listing.
proof fn lemma_io_distinct(nodes: Seq<NodeModel>, ord: Seq<usize>, with_external: bool)
    requires
        forest_wf(nodes),
        valid_topo(graph_of(nodes), ord),
    ensures
        forall|p: int, q: int|
            0 <= p < q < spec_include_order(nodes, ord, with_external).len()
                ==> spec_include_order(nodes, ord, with_external)[p].key != spec_include_order(
                nodes,
                ord,
                with_external,
            )[q].key,
{
    lemma_io_setup(nodes, ord);
    lemma_sieve(nodes, ord, true);
    lemma_sieve(nodes, ord, false);
    let v = spec_include_order(nodes, ord, with_external);
    let st = sieve(nodes, ord, true);
    let sf = sieve(nodes, ord, false);
    let off: int = if with_external {
        st.len() as int
    } else {
        0
    };
    assert forall|p: int, q: int| 0 <= p < q < v.len() implies v[p].key != v[q].key by {
        let x = if with_external && p < off {
            st[p]
        } else {
            sf[p - off]
        };
        let y = if with_external && q < off {
            st[q]
        } else {
            sf[q - off]
        };
        assert(v[p] == nodes[x as int] && v[q] == nodes[y as int]);
        if with_external && p < off && q < off {
            assert(st[p] != st[q]);
        } else if with_external && p < off {
            assert(nodes[x as int].path is None);
            assert((nodes[y as int].path is None) == false);
        } else {
            assert(sf[p - off] != sf[q - off]);
        }
        assert(x != y);
        if x < y {
            assert(nodes[x as int].key != nodes[y as int].key);
        } else {
            assert(nodes[y as int].key != nodes[x as int].key);
        }
    }
}

/// The coverage clauses: with external nodes every node is listed; without
/// them exactly the present-path nodes are, and nothing else.
proof fn lemma_io_coverage(nodes: Seq<NodeModel>, ord: Seq<usize>, with_external: bool)
    requires
        forest_wf(nodes),
        valid_topo(graph_of(nodes), ord),
        nodes.len() <= usize::MAX,
    ensures
        with_external ==> forall|x: int|
            0 <= x < nodes.len() ==> exists|p: int|
                0 <= p < spec_include_order(nodes, ord, with_external).len()
                    && spec_include_order(nodes, ord, with_external)[p] == #[trigger] nodes[x],
        !with_external ==> forall|p: int|
            0 <= p < spec_include_order(nodes, ord, with_external).len() ==> (
            #[trigger] spec_include_order(nodes, ord, with_external)[p]).path is Some,
        !with_external ==> forall|x: int|
            0 <= x < nodes.len() && (#[trigger] nodes[x]).path is Some ==> exists|p: int|
                0 <= p < spec_include_order(nodes, ord, with_external).len()
                    && spec_include_order(nodes, ord, with_external)[p] == nodes[x],
        with_external ==> forall|p: int, q: int|
            0 <= p < q < spec_include_order(nodes, ord, with_external).len() && (
            #[trigger] spec_include_order(nodes, ord, with_external)[q]).path is None ==> (
            #[trigger] spec_include_order(nodes, ord, with_external)[p]).path is None,
{
    lemma_io_setup(nodes, ord);
    lemma_sieve(nodes, ord, true);
    lemma_sieve(nodes, ord, false);
    let v = spec_include_order(nodes, ord, with_external);
    let st = sieve(nodes, ord, true);
    let sf = sieve(nodes, ord, false);
    let n = nodes.len();
    let off: int = if with_external {
        st.len() as int
    } else {
        0
    };
    if with_external {
        assert forall|x: int| 0 <= x < nodes.len() implies exists|p: int|
            0 <= p < v.len() && v[p] == #[trigger] nodes[x] by {
            lemma_full_perm_contains(ord, n as int, x as usize);
            if nodes[x].path is None {
                assert(st.contains(x as usize));
                let q = choose|q: int| 0 <= q < st.len() && st[q] == x as usize;
                assert(v[q] == nodes[x]);
            } else {
                assert(sf.contains(x as usize));
                let q = choose|q: int| 0 <= q < sf.len() && sf[q] == x as usize;
                assert(v[q + off] == nodes[x]);
            }
        }
        assert forall|p: int, q: int|
            0 <= p < q < v.len() && (#[trigger] v[q]).path is None implies (
        #[trigger] v[p]).path is None by {
            if q >= off {
                assert(v[q] == nodes[sf[q - off] as int]);
                assert(v[q].path is Some);
            }
        }
    } else {
        assert forall|p: int| 0 <= p < v.len() implies (#[trigger] v[p]).path is Some by {
            assert(v[p] == nodes[sf[p] as int]);
        }
        assert forall|x: int|
            0 <= x < nodes.len() && (#[trigger] nodes[x]).path is Some implies exists|p: int|
            0 <= p < v.len() && v[p] == nodes[x] by {
            lemma_full_perm_contains(ord, n as int, x as usize);
            assert(sf.contains(x as usize));
            let q = choose|q: int| 0 <= q < sf.len() && sf[q] == x as usize;
            assert(v[q] == nodes[x]);
        }
    }
}

/// A listed node's dependency, when listed itself, comes earlier.
#[verifier::rlimit(50)]
proof fn lemma_io_deps_first(nodes: Seq<NodeModel>, ord: Seq<usize>, with_external: bool)
    requires
        forest_wf(nodes),
        valid_topo(graph_of(nodes), ord),
    ensures
        forall|p: int, j: int|
            0 <= p < spec_include_order(nodes, ord, with_external).len() && 0 <= j
                < spec_include_order(nodes, ord, with_external)[p].uses.len() && key_in(
                spec_include_order(nodes, ord, with_external),
                #[trigger] spec_include_order(nodes, ord, with_external)[p].uses[j],
            ) ==> exists|q: int|
                0 <= q < p && spec_include_order(nodes, ord, with_external)[q].key
                    == spec_include_order(nodes, ord, with_external)[p].uses[j],
{
    lemma_io_setup(nodes, ord);
    lemma_sieve(nodes, ord, true);
    lemma_sieve(nodes, ord, false);
    let g = graph_of(nodes);
    let n = nodes.len();
    let v = spec_include_order(nodes, ord, with_external);
    let st = sieve(nodes, ord, true);
    let sf = sieve(nodes, ord, false);
    let off: int = if with_external {
        st.len() as int
    } else {
        0
    };
    assert forall|p: int, j: int|
        0 <= p < v.len() && 0 <= j < v[p].uses.len() && key_in(v, #[trigger] v[p].uses[j]) implies
        exists|q: int| 0 <= q < p && v[q].key == v[p].uses[j] by {
        let xp = if with_external && p < off {
            st[p]
        } else {
            sf[p - off]
        };
        assert(v[p] == nodes[xp as int]);
        assert(node_wf(nodes, xp as int));
        if nodes[xp as int].path is None {
            assert(nodes[xp as int].uses.len() == 0);
        } else {
            // `p` lies in the present-path part
            let pf = p - off;
            assert(xp == sf[pf]);
            let k = v[p].uses[j];
            let d = nodes[xp as int].uses_idx[j];
            assert(d < n && nodes[d as int].key == k);
            // some listed node carries `k`, and by key uniqueness it is `d`
            let q0 = choose|q: int| 0 <= q < v.len() && v[q].key == k;
            let x0 = if with_external && q0 < off {
                st[q0]
            } else {
                sf[q0 - off]
            };
            assert(v[q0] == nodes[x0 as int]);
            assert(x0 == d) by {
                if x0 as int != d as int {
                    if (x0 as int) < d as int {
                        assert(nodes[x0 as int].key != nodes[d as int].key);
                    } else {
                        assert(nodes[d as int].key != nodes[x0 as int].key);
                    }
                }
            }
            // in `ord`, `d` comes before `xp`
            lemma_pos_in(ord, xp);
            let tp = pos_in(ord, xp);
            assert(g[ord[tp] as int] == nodes[xp as int].uses_idx);
            assert(appears_before(g, ord, tp, j));
            let to = choose|t: int| 0 <= t < tp && ord[t] == g[ord[tp] as int][j];
            assert(ord[to] == d);
            assert(ord.contains(d)) by {
                assert(ord[to] == d);
            }
            lemma_pos_in(ord, d);
            assert(pos_in(ord, d) == to);
            if nodes[d as int].path is None {
                // only reachable with externals listed, where they all
                // come before every present-path node
                assert(with_external) by {
                    if !with_external {
                        assert(v[q0] == nodes[d as int]);
                        assert((nodes[sf[q0] as int].path is None) == false);
                    }
                }
                assert(st.contains(d));
                let qd = choose|q: int| 0 <= q < st.len() && st[q] == d;
                assert(v[qd] == nodes[d as int]);
                assert(qd < off <= p);
                assert(v[qd].key == k);
            } else {
                assert(sf.contains(d));
                let qd = choose|q: int| 0 <= q < sf.len() && sf[q] == d;
                assert(v[qd + off] == nodes[d as int]);
                assert(qd != pf) by {
                    if qd == pf {
                        assert(d == xp);
                    }
                }
                assert(qd < pf) by {
                    if pf < qd {
                        assert(pos_in(ord, sf[pf]) < pos_in(ord, sf[qd]));
                    }
                }
                assert(0 <= qd + off < p && v[qd + off].key == k);
            }
        }
    }
}

/// An include order built from any topological ordering of a well-formed
/// forest shows the face above.
pub proof fn lemma_include_order_ok(nodes: Seq<NodeModel>, ord: Seq<usize>, with_external: bool)
    requires
        forest_wf(nodes),
        valid_topo(graph_of(nodes), ord),
        nodes.len() <= usize::MAX,
    ensures
        is_include_order(nodes, spec_include_order(nodes, ord, with_external), with_external),
{
    lemma_io_membership(nodes, ord, with_external);
    lemma_io_distinct(nodes, ord, with_external);
    lemma_io_coverage(nodes, ord, with_external);
    lemma_io_deps_first(nodes, ord, with_external);
}

/// A complete topological ordering contains every node index.
proof fn lemma_full_perm_contains(ord: Seq<usize>, n: int, x: usize)
    requires
        ord.len() == n,
        x < n,
        n <= usize::MAX + 1,
        forall|t: int| 0 <= t < ord.len() ==> (#[trigger] ord[t]) < n,
        forall|t1: int, t2: int| 0 <= t1 < t2 < ord.len() ==> ord[t1] != ord[t2],
    ensures
        ord.contains(x),
{
    crate::simple_graph::lemma_covering(ord, n, x);
}

} // verus!
