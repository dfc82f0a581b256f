//! The breadth-first traversal engine. One `BFS` value is reusable scratch
//! state: a run clears and refills its containers instead of reallocating
//! them, so repeated queries over a large frozen graph stay allocation-light.
//!
//! A run from a start node records exactly the nodes reachable along
//! directed edges, the parent each node was first discovered from, and the
//! minimum hop count from the start (edge weights are ignored).

use std::collections::{HashMap, VecDeque};

use vstd::prelude::*;

use crate::graph::{has_edge, Edge, Graph};
use crate::reach::{
    lemma_closed_set_reaches, lemma_distinct_bounded_len, lemma_reaches_self, lemma_reaches_step,
    reach_set, reaches, reaches_in,
};

verus! {

broadcast use vstd::std_specs::hash::group_hash_axioms;

/// Per-run scratch: the nodes reached so far in discovery order, the parent
/// and hop-distance maps, and the pending-visit queue.
pub struct BFS {
    pub(crate) connected_nodes: Vec<usize>,
    pub(crate) parents: HashMap<usize, usize>,
    pub(crate) distances: HashMap<usize, usize>,
    pub(crate) queue: VecDeque<usize>,
}

impl BFS {
    /// The parent map of the most recent run: each reached node maps to the
    /// node it was first discovered from (the start maps to itself).
    pub closed spec fn parent_map(&self) -> Map<usize, usize> {
        self.parents@
    }

    /// The distance map of the most recent run: each reached node maps to
    /// its hop count from the start.
    pub closed spec fn depths(&self) -> Map<usize, usize> {
        self.distances@
    }

    /// The nodes reached by the most recent run, in discovery order and
    /// without duplicates.
    pub closed spec fn order(&self) -> Seq<usize> {
        self.connected_nodes@
    }

    /// The set of nodes reached by the most recent run.
    pub open spec fn reached(&self) -> Set<usize> {
        self.parent_map().dom()
    }

    spec fn pending(&self) -> Seq<usize> {
        self.queue@
    }

    /// State shared by every intermediate point of a run from `s` on `g`:
    /// the three containers agree on which nodes are reached, the discovery
    /// order is duplicate-free and starts at `s`, every reached node is a
    /// valid index reached by a path of its recorded depth, every non-start
    /// node hangs off its parent one hop deeper, depths never exceed the
    /// discovery position, and depths are non-decreasing along the order.
    spec fn inv_core(&self, g: Seq<Seq<Edge>>, s: usize) -> bool {
        let cn = self.order();
        let par = self.parent_map();
        let dst = self.depths();
        &&& par.dom() == dst.dom()
        &&& cn.to_set() == par.dom()
        &&& cn.no_duplicates()
        &&& cn.len() <= g.len()
        &&& cn.len() >= 1
        &&& cn[0] == s
        &&& forall|i: int| 0 <= i < cn.len() ==> (#[trigger] cn[i]) < g.len()
        &&& par.dom().contains(s)
        &&& par[s] == s
        &&& dst[s] == 0
        &&& forall|v: usize|
            #[trigger] par.dom().contains(v) && v != s ==> par.dom().contains(par[v]) && has_edge(
                g,
                par[v],
                v,
            ) && dst[v] == dst[par[v]] + 1
        &&& forall|v: usize|
            #[trigger] par.dom().contains(v) ==> reaches_in(g, s, v, dst[v] as nat)
        &&& forall|i: int| 0 <= i < cn.len() ==> dst[#[trigger] cn[i]] <= i
        &&& forall|i: int, j: int|
            #![trigger cn[i], cn[j]]
            0 <= i <= j < cn.len() ==> dst[cn[i]] <= dst[cn[j]]
    }

    /// The first `processed` nodes of the discovery order have had all their
    /// outgoing edges expanded: each such edge leads to a reached node whose
    /// depth is at most one more than the source's.
    spec fn inv_processed(&self, g: Seq<Seq<Edge>>, processed: int) -> bool {
        let cn = self.order();
        let dst = self.depths();
        forall|i: int, w: usize|
            0 <= i < processed && #[trigger] has_edge(g, cn[i], w) ==> self.parent_map().dom()
                .contains(w) && dst[w] <= dst[cn[i]] + 1
    }

    /// Every node still pending (at or past position `processed`) has a
    /// depth within one of the node about to be processed.
    spec fn inv_frontier(&self, processed: int) -> bool {
        let cn = self.order();
        let dst = self.depths();
        forall|j: int|
            processed <= j < cn.len() ==> dst[#[trigger] cn[j]] <= dst[cn[processed]] + 1
    }

    pub fn new() -> (b: BFS)
        ensures
            b.parent_map() == Map::<usize, usize>::empty(),
            b.depths() == Map::<usize, usize>::empty(),
            b.order() == Seq::<usize>::empty(),
            b.reached() == Set::<usize>::empty(),
    {
        let b = BFS {
            connected_nodes: Vec::new(),
            parents: HashMap::new(),
            distances: HashMap::new(),
            queue: VecDeque::new(),
        };
        proof {
            assert(b.reached() =~= Set::<usize>::empty());
        }
        b
    }

    /// Run a breadth-first traversal of `g` from the start node `s`,
    /// replacing whatever an earlier run left in this scratch state.
    ///
    /// Afterwards the reached set is exactly the set of nodes reachable from
    /// `s` along directed edges; each reached node's depth is its minimum
    /// hop count from `s`, witnessed by its parent chain. Discovery proceeds
    /// by nondecreasing depth, and each non-start node's parent is the
    /// earliest node in discovery order with an edge to it: the first
    /// discoverer wins.
    pub fn sssp(&mut self, g: &Graph, s: usize)
        requires
            g.wf(),
            s < g@.len(),
        ensures
            final(self).reached() == reach_set(g@, s),
            forall|v: usize| #[trigger] final(self).reached().contains(v) <==> reaches(g@, s, v),
            final(self).depths().dom() == final(self).reached(),
            final(self).order().to_set() == final(self).reached(),
            final(self).order().no_duplicates(),
            final(self).order().len() >= 1 && final(self).order()[0] == s,
            forall|i: int, j: int|
                #![trigger final(self).order()[i], final(self).order()[j]]
                0 <= i <= j < final(self).order().len() ==> final(self).depths()[final(self)
                    .order()[i]] <= final(self).depths()[final(self).order()[j]],
            final(self).reached().contains(s),
            final(self).parent_map()[s] == s,
            final(self).depths()[s] == 0,
            forall|v: usize|
                #[trigger] final(self).reached().contains(v) && v != s ==> {
                    &&& final(self).reached().contains(final(self).parent_map()[v])
                    &&& has_edge(g@, final(self).parent_map()[v], v)
                    &&& final(self).depths()[v] == final(self).depths()[final(self).parent_map()[v]]
                        + 1
                },
            forall|v: usize|
                #[trigger] final(self).reached().contains(v) ==> reaches_in(
                    g@,
                    s,
                    v,
                    final(self).depths()[v] as nat,
                ),
            forall|v: usize, d: nat|
                reaches_in(g@, s, v, d) ==> final(self).reached().contains(v) && final(self)
                    .depths()[v] <= d,
            forall|v: usize| #[trigger] final(self).reached().contains(v) ==> v < g@.len(),
            forall|i: int, jv: int|
                0 <= i < final(self).order().len() && 0 <= jv < final(self).order().len()
                    && final(self).order()[jv] != s && #[trigger] has_edge(
                    g@,
                    final(self).order()[i],
                    final(self).order()[jv],
                ) ==> exists|p: int|
                    0 <= p <= i && final(self).order()[p] == final(self).parent_map()[final(self)
                        .order()[jv]],
    {
        self.connected_nodes.clear();
        self.parents.clear();
        self.distances.clear();
        self.queue.clear();

        self.queue.push_back(s);
        self.connected_nodes.push(s);
        self.parents.insert(s, s);
        self.distances.insert(s, 0);

        let ghost mut processed: int = 0;
        proof {
            lemma_reaches_self(g@, s);
            assert(self.order() =~= seq![s]);
            assert(self.order().contains(s)) by {
                assert(self.order()[0] == s);
            }
            assert forall|x: usize| #[trigger] self.order().to_set().contains(x) implies x == s by {
                let i = choose|i: int| 0 <= i < self.order().len() && self.order()[i] == x;
            }
            assert(self.order().to_set() =~= self.parent_map().dom());
        }

        while self.queue.len() > 0
            invariant
                g.wf(),
                s < g@.len(),
                self.inv_core(g@, s),
                processed == self.order().len() - self.pending().len(),
                0 <= processed <= self.order().len(),
                self.pending() == self.order().subrange(processed, self.order().len() as int),
                self.inv_processed(g@, processed),
                self.inv_frontier(processed),
                forall|v: usize|
                    #[trigger] self.parent_map().dom().contains(v) && v != s ==> exists|p: int|
                        0 <= p < processed && self.order()[p] == self.parent_map()[v],
                forall|i: int, jv: int|
                    0 <= i < self.order().len() && 0 <= jv < self.order().len() && self.order()[jv]
                        != s && #[trigger] has_edge(g@, self.order()[i], self.order()[jv])
                        ==> exists|p: int|
                        0 <= p <= i && self.order()[p] == self.parent_map()[self.order()[jv]],
            decreases g@.len() - processed,
        {
            let u: usize = self.queue.pop_front().unwrap();
            proof {
                processed = processed + 1;
                assert(u == self.order()[processed - 1]);
                assert(self.order().to_set().contains(u));
                assert(self.pending() =~= self.order().subrange(
                    processed,
                    self.order().len() as int,
                ));
            }
            let du: usize = *self.distances.get(&u).unwrap();
            let nb = g.get_all_neighbours(u);
            let ghost head: int = processed;
            let mut j: usize = 0;
            while j < nb.len()
                invariant
                    g.wf(),
                    s < g@.len(),
                    self.inv_core(g@, s),
                    1 <= head <= self.order().len(),
                    head == self.order().len() - self.pending().len(),
                    self.pending() == self.order().subrange(head, self.order().len() as int),
                    u == self.order()[head - 1],
                    u < g@.len(),
                    self.parent_map().dom().contains(u),
                    du == self.depths()[u],
                    nb@.len() == g@[u as int].len(),
                    forall|k: int|
                        0 <= k < nb@.len() ==> nb@[k] == (#[trigger] g@[u as int][k]).to,
                    j <= nb@.len(),
                    self.inv_processed(g@, head - 1),
                    forall|k: int|
                        0 <= k < j ==> self.parent_map().dom().contains(#[trigger] nb@[k])
                            && self.depths()[nb@[k]] <= du + 1,
                    forall|j2: int|
                        head <= j2 < self.order().len() ==> self.depths()[
                            #[trigger] self.order()[j2]
                        ] <= du + 1,
                    forall|v: usize|
                        #[trigger] self.parent_map().dom().contains(v) && v != s ==> exists|p: int|
                            0 <= p < head && self.order()[p] == self.parent_map()[v],
                    forall|i: int, jv: int|
                        0 <= i < self.order().len() && 0 <= jv < self.order().len()
                            && self.order()[jv] != s && #[trigger] has_edge(
                            g@,
                            self.order()[i],
                            self.order()[jv],
                        ) ==> exists|p: int|
                            0 <= p <= i && self.order()[p] == self.parent_map()[self.order()[jv]],
                decreases nb@.len() - j,
            {
                let v: usize = nb[j];
                proof {
                    assert(g@[u as int][j as int].to == v);
                    assert(has_edge(g@, u, v));
                    assert(v < g@.len());
                }
                if !self.parents.contains_key(&v) {
                    let ghost cn = self.order();
                    let ghost dst = self.depths();
                    let ghost par = self.parent_map();
                    proof {
                        assert(!cn.to_set().contains(v));
                        assert(!cn.contains(v));
                        // the depth about to be recorded stays within usize
                        assert(du <= head - 1);
                        assert(cn.len() <= g@.len());
                        // restate the entry-state facts over the snapshots
                        assert(forall|i: int, w: usize|
                            0 <= i < head - 1 && #[trigger] has_edge(g@, cn[i], w) ==> par.dom()
                                .contains(w) && dst[w] <= dst[cn[i]] + 1);
                        assert(forall|v2: usize|
                            #[trigger] par.dom().contains(v2) && v2 != s ==> exists|p: int|
                                0 <= p < head && cn[p] == par[v2]);
                        assert(forall|i: int, jv: int|
                            0 <= i < cn.len() && 0 <= jv < cn.len() && cn[jv] != s
                                && #[trigger] has_edge(g@, cn[i], cn[jv]) ==> exists|p: int|
                                0 <= p <= i && cn[p] == par[cn[jv]]);
                    }
                    // reading the length pins it as a machine integer, which
                    // bounds the depth `du + 1` recorded below
                    let _cl: usize = self.connected_nodes.len();
                    self.queue.push_back(v);
                    self.connected_nodes.push(v);
                    self.parents.insert(v, u);
                    self.distances.insert(v, du + 1);
                    proof {
                        let cn2 = self.order();
                        let dst2 = self.depths();
                        lemma_reaches_step(g@, s, u, v, du as nat);
                        assert(cn2 =~= cn + seq![v]);
                        Seq::<usize>::lemma_to_set_insert_commutes(cn, v);
                        assert(cn2.to_set() == cn.to_set().insert(v));
                        assert(cn2.to_set() =~= self.parent_map().dom());
                        assert forall|i1: int, i2: int|
                            (0 <= i1 < cn2.len() && 0 <= i2 < cn2.len() && i1 != i2) implies cn2[i1]
                            != cn2[i2] by {
                            if i1 < cn.len() && i2 < cn.len() {
                                assert(cn2[i1] == cn[i1] && cn2[i2] == cn[i2]);
                            } else if i1 == cn.len() {
                                assert(cn2[i2] == cn[i2] && cn.contains(cn[i2]));
                            } else {
                                assert(cn2[i1] == cn[i1] && cn.contains(cn[i1]));
                            }
                        }
                        lemma_distinct_bounded_len(cn2, g@.len() as nat);
                        assert(self.pending() =~= cn2.subrange(head, cn2.len() as int));
                        // depths on previously reached nodes are unchanged
                        assert(forall|w: usize|
                            #[trigger] cn.to_set().contains(w) ==> w != v && dst2[w] == dst[w]);
                        assert(dst2[v] == du + 1 && dst2[cn2[head - 1]] == du);
                        // positions, monotonicity and the frontier for the new node
                        assert forall|i: int| 0 <= i < cn2.len() implies dst2[#[trigger] cn2[i]]
                            <= i by {
                            if i < cn.len() {
                                assert(cn2[i] == cn[i] && cn.to_set().contains(cn[i]));
                            } else {
                                assert(cn2[i] == v && du <= head - 1 <= i - 1);
                            }
                        }
                        assert forall|i1: int, i2: int|
                            #![trigger cn2[i1], cn2[i2]]
                            0 <= i1 <= i2 < cn2.len() implies dst2[cn2[i1]] <= dst2[cn2[i2]] by {
                            if i2 < cn.len() {
                                assert(cn2[i1] == cn[i1] && cn2[i2] == cn[i2]);
                            } else if i1 < cn.len() {
                                assert(cn2[i2] == v);
                                assert(cn2[i1] == cn[i1] && cn.to_set().contains(cn[i1]));
                                if i1 <= head - 1 {
                                    assert(dst[cn[i1]] <= dst[cn[head - 1]]);
                                } else {
                                    assert(dst[cn[i1]] <= du + 1);
                                }
                            }
                        }
                        let par2 = self.parent_map();
                        assert(cn2[head - 1] == u);
                        // every parent is already processed
                        assert forall|v2: usize|
                            #[trigger] par2.dom().contains(v2) && v2 != s implies exists|p: int|
                            0 <= p < head && cn2[p] == par2[v2] by {
                            if v2 == v {
                                assert(cn2[head - 1] == par2[v2]);
                            } else {
                                assert(par.dom().contains(v2));
                                let p = choose|p: int| 0 <= p < head && cn[p] == par[v2];
                                assert(cn2[p] == par2[v2]);
                            }
                        }
                        // the parent of each non-start node stays its
                        // earliest in-neighbour in discovery order
                        assert forall|i: int, jv: int|
                            0 <= i < cn2.len() && 0 <= jv < cn2.len() && cn2[jv] != s
                                && #[trigger] has_edge(g@, cn2[i], cn2[jv]) implies exists|p: int|
                            0 <= p <= i && cn2[p] == par2[cn2[jv]] by {
                            if jv < cn.len() {
                                assert(cn2[jv] == cn[jv] && cn.contains(cn[jv]));
                                if i < cn.len() {
                                    assert(has_edge(g@, cn[i], cn[jv]));
                                    let p = choose|p: int| 0 <= p <= i && cn[p] == par[cn[jv]];
                                    assert(cn2[p] == par2[cn2[jv]]);
                                } else {
                                    // the new node as a source: the target's
                                    // parent already sits in the order
                                    assert(par.dom().contains(cn[jv]));
                                    let p = choose|p: int| 0 <= p < head && cn[p] == par[cn[jv]];
                                    assert(0 <= p <= i && cn2[p] == par2[cn2[jv]]);
                                }
                            } else {
                                // the new node as a target: no node processed
                                // before u has an edge to it, so u, which is
                                // at the head, is its earliest in-neighbour
                                assert(cn2[jv] == v && par2[v] == u);
                                if i <= head - 2 {
                                    assert(has_edge(g@, cn[i], v));
                                    assert(par.dom().contains(v));
                                    assert(false);
                                } else {
                                    assert(0 <= head - 1 <= i && cn2[head - 1] == u);
                                }
                            }
                        }
                    }
                } else {
                    proof {
                        let cn = self.order();
                        let dst = self.depths();
                        assert(cn.to_set().contains(v));
                        let i = choose|i: int| 0 <= i < cn.len() && cn[i] == v;
                        if i <= head - 1 {
                            assert(dst[cn[i]] <= dst[cn[head - 1]]);
                        } else {
                            assert(dst[cn[i]] <= du + 1);
                        }
                        assert(dst[v] <= du + 1);
                    }
                }
                j += 1;
            }
            proof {
                let cn = self.order();
                let dst = self.depths();
                assert forall|i: int, w: usize|
                    0 <= i < processed && #[trigger] has_edge(g@, cn[i], w) implies self
                    .parent_map().dom().contains(w) && dst[w] <= dst[cn[i]] + 1 by {
                    if i == processed - 1 {
                        let k = choose|k: int|
                            0 <= k < g@[u as int].len() && (#[trigger] g@[u as int][k]).to == w;
                        assert(nb@[k] == w);
                    }
                }
                if processed < cn.len() {
                    assert(dst[cn[processed - 1]] <= dst[cn[processed]]);
                    assert forall|j2: int| processed <= j2 < cn.len() implies dst[
                        #[trigger] cn[j2]
                    ] <= dst[cn[processed]] + 1 by {
                        assert(dst[cn[j2]] <= du + 1);
                    }
                }
            }
        }
        proof {
            let cn = self.order();
            let par = self.parent_map();
            let dst = self.depths();
            assert(processed == cn.len());
            assert forall|uu: usize, ww: usize|
                dst.dom().contains(uu) && #[trigger] has_edge(g@, uu, ww) implies dst.dom()
                .contains(ww) && dst[ww] <= dst[uu] + 1 by {
                assert(cn.to_set().contains(uu));
                let i = choose|i: int| 0 <= i < cn.len() && cn[i] == uu;
                assert(has_edge(g@, cn[i], ww));
            }
            assert forall|v: usize, d: nat| reaches_in(g@, s, v, d) implies par.dom().contains(v)
                && dst[v] <= d by {
                lemma_closed_set_reaches(g@, s, self.distances@, v, d);
            }
            assert forall|v: usize| #[trigger] par.dom().contains(v) implies reaches(
                g@,
                s,
                v,
            ) by {
                assert(reaches_in(g@, s, v, dst[v] as nat));
            }
            assert(self.reached() =~= reach_set(g@, s));
        }
    }

    /// The hop count of `node` in the most recent run, or `None` when that
    /// run did not reach it (or no run has happened yet).
    pub fn depth(&self, node: usize) -> (r: Option<usize>)
        ensures
            match r {
                Some(d) => self.depths().dom().contains(node) && d == self.depths()[node],
                None => !self.depths().dom().contains(node),
            },
    {
        match self.distances.get(&node) {
            Some(d) => Some(*d),
            None => None,
        }
    }

    /// The node `node` was first discovered from in the most recent run
    /// (the start node is its own parent), or `None` when unreached.
    pub fn parent(&self, node: usize) -> (r: Option<usize>)
        ensures
            match r {
                Some(p) => self.parent_map().dom().contains(node) && p == self.parent_map()[node],
                None => !self.parent_map().dom().contains(node),
            },
    {
        match self.parents.get(&node) {
            Some(p) => Some(*p),
            None => None,
        }
    }

    /// The nodes reached by the most recent run, in discovery order.
    pub fn connected_nodes(&self) -> (r: &Vec<usize>)
        ensures
            r@ == self.order(),
    {
        &self.connected_nodes
    }
}

} // verus!
