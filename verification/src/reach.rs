//! The mathematical model of reachability that the traversal contracts are
//! stated against: paths along directed edges, reachability in a bounded
//! number of hops, and the set of nodes reachable from a start node.

use vstd::prelude::*;

use crate::graph::{has_edge, Edge};

verus! {

/// Consecutive entries of `p` are joined by an edge of `g`.
pub open spec fn is_path(g: Seq<Seq<Edge>>, p: Seq<usize>) -> bool {
    forall|i: int| 0 <= i < p.len() - 1 ==> has_edge(g, #[trigger] p[i], p[i + 1])
}

/// Some path with exactly `d` edges leads from `s` to `v` in `g`.
pub open spec fn reaches_in(g: Seq<Seq<Edge>>, s: usize, v: usize, d: nat) -> bool {
    exists|p: Seq<usize>|
        {
            &&& p.len() == d + 1
            &&& p[0] == s
            &&& p[d as int] == v
            &&& is_path(g, p)
        }
}

/// `v` is reachable from `s` by following directed edges of `g`.
pub open spec fn reaches(g: Seq<Seq<Edge>>, s: usize, v: usize) -> bool {
    exists|d: nat| reaches_in(g, s, v, d)
}

/// The set of all nodes reachable from `s` in `g`, `s` itself among them.
pub open spec fn reach_set(g: Seq<Seq<Edge>>, s: usize) -> Set<usize> {
    Set::new(|v: usize| reaches(g, s, v))
}

/// Every node reaches itself by the zero-edge path.
pub proof fn lemma_reaches_self(g: Seq<Seq<Edge>>, s: usize)
    ensures
        reaches_in(g, s, s, 0),
        reaches(g, s, s),
{
    let p = seq![s];
    assert(p.len() == 1 && p[0] == s && is_path(g, p));
    assert(reaches_in(g, s, s, 0));
}

/// A path of `d` edges to `u` extends along the edge `u -> v` to a path of
/// `d + 1` edges to `v`.
pub proof fn lemma_reaches_step(g: Seq<Seq<Edge>>, s: usize, u: usize, v: usize, d: nat)
    requires
        reaches_in(g, s, u, d),
        has_edge(g, u, v),
    ensures
        reaches_in(g, s, v, d + 1),
{
    let p = choose|p: Seq<usize>|
        {
            &&& p.len() == d + 1
            &&& p[0] == s
            &&& p[d as int] == u
            &&& is_path(g, p)
        };
    let q = p.push(v);
    assert(q.len() == d + 2 && q[0] == s && q[d + 1 as int] == v);
    assert forall|i: int| 0 <= i < q.len() - 1 implies has_edge(g, #[trigger] q[i], q[i + 1]) by {
        if i < d {
            assert(q[i] == p[i] && q[i + 1] == p[i + 1]);
            assert(has_edge(g, p[i], p[i + 1]));
        } else {
            assert(q[i] == u && q[i + 1] == v);
        }
    }
    assert(reaches_in(g, s, v, d + 1));
}

/// If a distance-labelled set contains the start with label zero and every
/// edge out of a member leads to a member whose label is at most one larger,
/// then every node that some `d`-edge path reaches from the start is a
/// member with label at most `d`. This is the completeness and minimality
/// argument for breadth-first search, by induction over the path length.
pub proof fn lemma_closed_set_reaches(
    g: Seq<Seq<Edge>>,
    s: usize,
    m: Map<usize, usize>,
    v: usize,
    d: nat,
)
    requires
        m.dom().contains(s),
        m[s] == 0,
        forall|u: usize, w: usize|
            m.dom().contains(u) && #[trigger] has_edge(g, u, w) ==> m.dom().contains(w) && m[w]
                <= m[u] + 1,
        reaches_in(g, s, v, d),
    ensures
        m.dom().contains(v),
        m[v] <= d,
    decreases d,
{
    let p = choose|p: Seq<usize>|
        {
            &&& p.len() == d + 1
            &&& p[0] == s
            &&& p[d as int] == v
            &&& is_path(g, p)
        };
    if d == 0 {
        assert(v == s);
    } else {
        let w = p[d - 1];
        let q = p.subrange(0, d as int);
        assert(q.len() == d && q[0] == s && q[d - 1] == w);
        assert forall|i: int| 0 <= i < q.len() - 1 implies has_edge(g, #[trigger] q[i], q[i + 1])
            by {
            assert(q[i] == p[i] && q[i + 1] == p[i + 1]);
            assert(has_edge(g, p[i], p[i + 1]));
        }
        assert(reaches_in(g, s, w, (d - 1) as nat));
        lemma_closed_set_reaches(g, s, m, w, (d - 1) as nat);
        assert(has_edge(g, p[d - 1], p[d as int]));
    }
}

/// Depth labellings are unique: any two maps that each label exactly the
/// nodes reachable from `s`, giving every labelled node a depth that some
/// path realises and that no shorter path undercuts, are equal. Hence the
/// depths a traversal run records are a pure function of the graph and the
/// start node, and repeated runs agree on them.
pub proof fn lemma_min_depths_unique(
    g: Seq<Seq<Edge>>,
    s: usize,
    m1: Map<usize, usize>,
    m2: Map<usize, usize>,
)
    requires
        forall|v: usize|
            #[trigger] m1.dom().contains(v) ==> reaches_in(g, s, v, m1[v] as nat),
        forall|v: usize, d: nat| reaches_in(g, s, v, d) ==> m1.dom().contains(v) && m1[v] <= d,
        forall|v: usize|
            #[trigger] m2.dom().contains(v) ==> reaches_in(g, s, v, m2[v] as nat),
        forall|v: usize, d: nat| reaches_in(g, s, v, d) ==> m2.dom().contains(v) && m2[v] <= d,
    ensures
        m1 == m2,
{
    assert forall|v: usize| #[trigger] m1.dom().contains(v) implies m2.dom().contains(v) && m1[v]
        == m2[v] by {
        assert(reaches_in(g, s, v, m1[v] as nat));
        assert(m2[v] <= m1[v]);
        assert(reaches_in(g, s, v, m2[v] as nat));
        assert(m1[v] <= m2[v]);
    }
    assert forall|v: usize| #[trigger] m2.dom().contains(v) implies m1.dom().contains(v) by {
        assert(reaches_in(g, s, v, m2[v] as nat));
    }
    assert(m1 =~= m2);
}

/// A duplicate-free sequence whose entries all lie below `n` has at most
/// `n` entries. Bounds the traversal queue by the node count.
pub proof fn lemma_distinct_bounded_len(s: Seq<usize>, n: nat)
    requires
        s.no_duplicates(),
        forall|i: int| 0 <= i < s.len() ==> (#[trigger] s[i]) < n,
    ensures
        s.len() <= n,
{
    let f = |x: usize| x as int;
    let t = s.map_values(f);
    assert(vstd::relations::injective(f)) by {
        assert forall|a: usize, b: usize| #[trigger] f(a) == #[trigger] f(b) implies a == b by {}
    }
    s.lemma_no_duplicates_injective(f);
    t.unique_seq_to_set();
    assert(t.to_set().subset_of(vstd::set_lib::set_int_range(0, n as int))) by {
        assert forall|x: int| t.to_set().contains(x) implies vstd::set_lib::set_int_range(
            0,
            n as int,
        ).contains(x) by {
            let i = choose|i: int| 0 <= i < t.len() && t[i] == x;
            assert(s[i] < n);
        }
    }
    vstd::set_lib::lemma_int_range(0, n as int);
    vstd::set_lib::lemma_len_subset(t.to_set(), vstd::set_lib::set_int_range(0, n as int));
}

} // verus!
