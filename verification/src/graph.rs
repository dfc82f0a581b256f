//! The graph container: a dense, index-addressed node set and one outgoing
//! adjacency list per node, holding directed weighted edges in insertion
//! order. Parallel edges between the same ordered pair are kept as given.

use vstd::prelude::*;

verus! {

/// A directed, weighted edge out of some node: the target node index
/// together with the weight carried by this particular arc. Weights are
/// stored and queryable but play no role in traversal.
#[derive(Clone, Copy, PartialEq, Eq, Structural, Debug)]
pub struct Edge {
    pub to: usize,
    pub weight: i32,
}

impl Edge {
    pub fn new(to: usize, weight: i32) -> (e: Edge)
        ensures
            e.to == to,
            e.weight == weight,
    {
        Edge { to, weight }
    }
}

/// Nodes are identified purely by their dense index in `0 .. node_count`;
/// appending a node appends one empty adjacency list.
pub struct Graph {
    edge_lists: Vec<Vec<Edge>>,
}

impl View for Graph {
    type V = Seq<Seq<Edge>>;

    closed spec fn view(&self) -> Seq<Seq<Edge>> {
        self.edge_lists@.map_values(|l: Vec<Edge>| l@)
    }
}

/// Node `u` has at least one outgoing edge whose target is `v`.
pub open spec fn has_edge(g: Seq<Seq<Edge>>, u: usize, v: usize) -> bool {
    &&& u < g.len()
    &&& exists|k: int| 0 <= k < g[u as int].len() && (#[trigger] g[u as int][k]).to == v
}

impl Graph {
    /// Every stored edge points at an existing node. Traversal relies on
    /// this; `add_edge` keeps it whenever the caller passes a `to` in range.
    pub open spec fn wf(&self) -> bool {
        forall|i: int, k: int|
            0 <= i < self@.len() && 0 <= k < self@[i].len() ==> (#[trigger] self@[i][k]).to
                < self@.len()
    }

    pub fn new() -> (g: Graph)
        ensures
            g@ == Seq::<Seq<Edge>>::empty(),
            g.wf(),
    {
        let g = Graph { edge_lists: Vec::new() };
        proof {
            assert(g@ =~= Seq::<Seq<Edge>>::empty());
        }
        g
    }

    /// Append one node with an empty outgoing-edge list; the new node's
    /// index is the old node count.
    pub fn add_node(&mut self)
        ensures
            final(self)@ == old(self)@.push(Seq::<Edge>::empty()),
            old(self).wf() ==> final(self).wf(),
    {
        self.edge_lists.push(Vec::new());
        proof {
            assert(self@ =~= old(self)@.push(Seq::<Edge>::empty()));
        }
    }

    /// Append the edge `from -> to` with the given weight to `from`'s list.
    /// `from` must name an existing node; `to` is stored as given, so it may
    /// name a node added later, and traversal requires it to be in range.
    pub fn add_edge(&mut self, from: usize, to: usize, weight: i32)
        requires
            from < old(self)@.len(),
        ensures
            final(self)@ == old(self)@.update(
                from as int,
                old(self)@[from as int].push((Edge { to, weight })),
            ),
            old(self).wf() && to < old(self)@.len() ==> final(self).wf(),
    {
        let list: &mut Vec<Edge> = &mut self.edge_lists[from];
        list.push(Edge::new(to, weight));
        proof {
            assert(self@ =~= old(self)@.update(
                from as int,
                old(self)@[from as int].push((Edge { to, weight })),
            ));
        }
    }

    /// Convenience for symmetric links: adds the two independent edges
    /// `a -> b` and `b -> a`, each carrying `weight`.
    pub fn add_bidirectional_edge(&mut self, a: usize, b: usize, weight: i32)
        requires
            a < old(self)@.len(),
            b < old(self)@.len(),
        ensures
            final(self)@ == ({
                let once = old(self)@.update(
                    a as int,
                    old(self)@[a as int].push((Edge { to: b, weight })),
                );
                once.update(b as int, once[b as int].push((Edge { to: a, weight })))
            }),
            has_edge(final(self)@, a, b),
            has_edge(final(self)@, b, a),
            old(self).wf() ==> final(self).wf(),
    {
        self.add_edge(a, b, weight);
        self.add_edge(b, a, weight);
        proof {
            let g = self@;
            let la = g[a as int];
            let lb = g[b as int];
            assert(lb[lb.len() - 1].to == a);
            if a == b {
                assert(la[la.len() - 2].to == b);
            } else {
                assert(la[la.len() - 1].to == b);
            }
        }
    }

    /// The `to` endpoint of every outgoing edge of `from`, in insertion
    /// order; parallel edges give duplicate entries.
    pub fn get_all_neighbours(&self, from: usize) -> (r: Vec<usize>)
        requires
            from < self@.len(),
        ensures
            r@.len() == self@[from as int].len(),
            forall|k: int| 0 <= k < r@.len() ==> r@[k] == (#[trigger] self@[from as int][k]).to,
            forall|v: usize| #[trigger] r@.contains(v) <==> has_edge(self@, from, v),
    {
        let list: &Vec<Edge> = &self.edge_lists[from];
        let mut r: Vec<usize> = Vec::new();
        let mut k: usize = 0;
        while k < list.len()
            invariant
                from < self@.len(),
                list@ == self.edge_lists@[from as int]@,
                list@.len() == self@[from as int].len(),
                k <= list@.len(),
                r@.len() == k,
                forall|j: int| 0 <= j < k ==> r@[j] == (#[trigger] self@[from as int][j]).to,
            decreases list@.len() - k,
        {
            r.push(list[k].to);
            k += 1;
        }
        proof {
            assert forall|v: usize| #[trigger] r@.contains(v) implies has_edge(self@, from, v) by {
                let j = choose|j: int| 0 <= j < r@.len() && r@[j] == v;
                assert(self@[from as int][j].to == v);
            }
            assert forall|v: usize| has_edge(self@, from, v) implies r@.contains(v) by {
                let j = choose|j: int|
                    0 <= j < self@[from as int].len() && (#[trigger] self@[from as int][j]).to
                        == v;
                assert(r@[j] == v);
            }
        }
        r
    }

    /// The minimum weight among the (possibly parallel) edges `from -> to`,
    /// or `None` when no such edge exists.
    pub fn get_shortest_weight_between_neighbours(&self, from: usize, to: usize) -> (r: Option<
        i32,
    >)
        requires
            from < self@.len(),
        ensures
            r is Some <==> has_edge(self@, from, to),
            match r {
                Some(w) => {
                    &&& exists|k: int|
                        0 <= k < self@[from as int].len() && (#[trigger] self@[from as int][k]).to
                            == to && self@[from as int][k].weight == w
                    &&& forall|k: int|
                        0 <= k < self@[from as int].len() && (#[trigger] self@[from as int][k]).to
                            == to ==> w <= self@[from as int][k].weight
                },
                None => true,
            },
    {
        let list: &Vec<Edge> = &self.edge_lists[from];
        let mut best: Option<i32> = None;
        let mut k: usize = 0;
        while k < list.len()
            invariant
                from < self@.len(),
                list@ == self.edge_lists@[from as int]@,
                list@.len() == self@[from as int].len(),
                k <= list@.len(),
                match best {
                    Some(w) => {
                        &&& exists|j: int|
                            0 <= j < k && (#[trigger] self@[from as int][j]).to == to
                                && self@[from as int][j].weight == w
                        &&& forall|j: int|
                            0 <= j < k && (#[trigger] self@[from as int][j]).to == to ==> w
                                <= self@[from as int][j].weight
                    },
                    None => forall|j: int|
                        0 <= j < k ==> (#[trigger] self@[from as int][j]).to != to,
                },
            decreases list@.len() - k,
        {
            let e = list[k];
            if e.to == to {
                match best {
                    None => {
                        best = Some(e.weight);
                    },
                    Some(w) => {
                        if e.weight < w {
                            best = Some(e.weight);
                        }
                    },
                }
            }
            k += 1;
        }
        proof {
            if best is Some {
                let j = choose|j: int|
                    0 <= j < self@[from as int].len() && (#[trigger] self@[from as int][j]).to
                        == to && self@[from as int][j].weight == best->0;
                assert(has_edge(self@, from, to));
            }
            if has_edge(self@, from, to) {
                let j = choose|j: int|
                    0 <= j < self@[from as int].len() && (#[trigger] self@[from as int][j]).to
                        == to;
                assert(!(best is None));
            }
        }
        best
    }

    /// The current node count; valid node indices are exactly `0 .. count`.
    pub fn get_number_of_nodes(&self) -> (n: usize)
        ensures
            n == self@.len(),
    {
        self.edge_lists.len()
    }
}

} // verus!
