//! The connected-components counter: scan the nodes in index order and
//! launch one breadth-first run from every node that no earlier run has
//! covered, accumulating a global covered set and a run count.
//!
//! Because edges are directed, each run covers the forward-reachable set of
//! its start node, so the reported figure is the number of
//! forward-reachability classes induced by index-order processing. It equals
//! the weakly-connected-component count exactly when the edge set is
//! symmetric (for instance when it was built with `add_bidirectional_edge`);
//! this directed, order-dependent semantics is kept deliberately.

use std::collections::HashSet;

use vstd::prelude::*;

use crate::bfs::BFS;
use crate::graph::{Edge, Graph};
use crate::reach::{lemma_reaches_self, reach_set};

verus! {

broadcast use vstd::std_specs::hash::group_hash_axioms;

/// The nodes covered once the counter has processed all node indices below
/// `i`: each uncovered index in turn contributes everything reachable from
/// it.
pub open spec fn covered_upto(g: Seq<Seq<Edge>>, i: nat) -> Set<usize>
    decreases i,
{
    if i == 0 {
        Set::empty()
    } else {
        let prev = covered_upto(g, (i - 1) as nat);
        if prev.contains(((i - 1) as usize)) {
            prev
        } else {
            prev.union(reach_set(g, (i - 1) as usize))
        }
    }
}

/// The number of breadth-first runs launched while processing all node
/// indices below `i`: one for each index not covered by an earlier run.
pub open spec fn count_upto(g: Seq<Seq<Edge>>, i: nat) -> int
    decreases i,
{
    if i == 0 {
        0
    } else {
        count_upto(g, (i - 1) as nat) + if covered_upto(g, (i - 1) as nat).contains(
            ((i - 1) as usize),
        ) {
            0int
        } else {
            1int
        }
    }
}

/// The component count of `g`: the number of forward-reachability classes
/// induced by processing nodes in index order, a pure function of the graph.
pub open spec fn component_count(g: Seq<Seq<Edge>>) -> int {
    count_upto(g, g.len())
}

/// Counting state: the reusable traversal scratch and the global set of
/// nodes already assigned to a component. The traversal state of the last
/// completed run stays inspectable through `bfs`.
pub struct ConnectedComponents {
    pub bfs: BFS,
    pub(crate) found_indices: HashSet<usize>,
}

impl ConnectedComponents {
    /// The global set of nodes the counting pass has covered so far.
    pub closed spec fn covered(&self) -> Set<usize> {
        self.found_indices@
    }

    pub fn new() -> (c: ConnectedComponents)
        ensures
            c.covered() == Set::<usize>::empty(),
    {
        ConnectedComponents { bfs: BFS::new(), found_indices: HashSet::new() }
    }

    /// Count the forward-reachability classes of `g`: clear the covered set,
    /// then for each node index in increasing order that is not yet covered,
    /// count one more class and cover everything reachable from it.
    ///
    /// The result is a pure function of the graph alone, so re-running the
    /// counter on an unmodified graph always reports the same figure.
    pub fn count_connected_components(&mut self, g: &Graph) -> (count: usize)
        requires
            g.wf(),
        ensures
            count == component_count(g@),
            g@.len() == 0 ==> count == 0,
            g@.len() > 0 ==> count >= 1,
            count <= g@.len(),
            final(self).covered() == covered_upto(g@, g@.len()),
            forall|v: usize| #[trigger] final(self).covered().contains(v) <==> v < g@.len(),
    {
        self.found_indices.clear();
        let mut components: usize = 0;
        let n: usize = g.get_number_of_nodes();
        let mut i: usize = 0;
        while i < n
            invariant
                g.wf(),
                n == g@.len(),
                i <= n,
                components <= i,
                i > 0 ==> components >= 1,
                components == count_upto(g@, i as nat),
                self.found_indices@ == covered_upto(g@, i as nat),
                forall|v: usize| #[trigger] self.found_indices@.contains(v) ==> v < g@.len(),
                forall|j: int|
                    0 <= j < i ==> self.found_indices@.contains(#[trigger] (j as usize)),
            decreases n - i,
        {
            if !self.found_indices.contains(&i) {
                components = components + 1;
                self.bfs.sssp(g, i);
                let ghost pre_found = self.found_indices@;
                let mut j: usize = 0;
                while j < self.bfs.connected_nodes().len()
                    invariant
                        j <= self.bfs.order().len(),
                        self.bfs.order().to_set() == self.bfs.reached(),
                        self.bfs.reached() == reach_set(g@, i),
                        forall|v: usize| #[trigger] self.bfs.reached().contains(v) ==> v < g@.len(),
                        self.found_indices@ == pre_found.union(
                            self.bfs.order().take(j as int).to_set(),
                        ),
                    decreases self.bfs.order().len() - j,
                {
                    let node: usize = self.bfs.connected_nodes()[j];
                    self.found_indices.insert(node);
                    proof {
                        let cn = self.bfs.order();
                        assert(cn.take(j + 1) =~= cn.take(j as int).push(node));
                        Seq::<usize>::lemma_to_set_insert_commutes(cn.take(j as int), node);
                        assert(cn.take(j as int).push(node) =~= cn.take(j as int) + seq![node]);
                        assert(cn.take(j + 1).to_set() == cn.take(j as int).to_set().insert(node));
                        assert(self.found_indices@ =~= pre_found.union(
                            cn.take(j + 1).to_set(),
                        ));
                    }
                    j += 1;
                }
                proof {
                    let cn = self.bfs.order();
                    assert(cn.take(cn.len() as int) =~= cn);
                    lemma_reaches_self(g@, i);
                    assert(covered_upto(g@, (i + 1) as nat) == pre_found.union(
                        reach_set(g@, i),
                    ));
                    assert(self.found_indices@ =~= covered_upto(g@, (i + 1) as nat));
                    assert(self.found_indices@.contains(i));
                    assert forall|v: usize| #[trigger] self.found_indices@.contains(v) implies v
                        < g@.len() by {
                        if !pre_found.contains(v) {
                            assert(self.bfs.reached().contains(v));
                        }
                    }
                }
            } else {
                proof {
                    assert(covered_upto(g@, (i + 1) as nat) == covered_upto(g@, i as nat));
                }
            }
            i += 1;
        }
        proof {
            assert forall|v: usize| v < g@.len() implies self.found_indices@.contains(v) by {
                assert(self.found_indices@.contains(#[trigger] ((v as int) as usize)));
            }
        }
        components
    }
}

/// Re-running the counter on the same unmodified graph yields the same
/// count both times: any two counting passes over one graph agree, because
/// the count is a pure function of the graph.
pub proof fn lemma_count_rerun(g: Seq<Seq<Edge>>, first: int, second: int)
    requires
        first == component_count(g),
        second == component_count(g),
    ensures
        first == second,
{
}

} // verus!
