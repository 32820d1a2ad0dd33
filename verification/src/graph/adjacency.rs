//! Graphs kept as adjacency lists, with and without costs on their edges.

use super::Graph;
use vstd::prelude::*;

verus! {

/// A graph on the nodes `0..n` whose edges all cost one.
#[derive(Debug)]
pub struct UnweightedGraph {
    /// The number of nodes.
    pub n: usize,
    /// For each node the targets of its edges.
    pub g: Vec<Vec<usize>>,
}

impl Graph for UnweightedGraph {
    type Idx = usize;

    type Cost = usize;

    /// There is a list for each node, and every target is a node.
    open spec fn wf(&self) -> bool {
        &&& self.g.len() == self.n
        &&& forall|i: int, k: int|
            0 <= i < self.n && 0 <= k < self.g[i].len() ==> #[trigger] self.g[i][k] < self.n
    }

    open spec fn size(&self) -> nat {
        self.n as nat
    }

    open spec fn contains(&self, i: usize) -> bool {
        i < self.n
    }

    open spec fn edges_spec(&self, i: usize) -> Seq<(usize, usize)> {
        self.g[i as int]@.map_values(|t: usize| (t, 1usize))
    }

    open spec fn ordinal(&self, i: usize) -> int {
        i as int
    }

    proof fn lemma_ordinal(&self, i: usize, j: usize) {
    }

    proof fn lemma_ordinal_onto(&self, k: int) -> (i: usize) {
        k as usize
    }

    proof fn lemma_edges(&self, i: usize, k: int) {
        assert(self.g[i as int][k] < self.n);
    }

    fn len(&self) -> usize {
        self.n
    }

    fn edges(&self, i: usize) -> Vec<(usize, usize)> {
        let targets = &self.g[i];
        let mut es: Vec<(usize, usize)> = Vec::new();
        let mut k: usize = 0;
        while k < targets.len()
            invariant
                k <= targets.len(),
                targets@ == self.g[i as int]@,
                es.len() == k,
                forall|j: int| 0 <= j < k ==> es[j] == (targets[j], 1usize),
            decreases targets.len() - k,
        {
            es.push((targets[k], 1));
            k += 1;
        }
        assert(es@ =~= self.edges_spec(i));
        es
    }

    fn idx_to_usize(&self, i: usize) -> usize {
        i
    }
}

/// A graph on the nodes `0..n` whose edges carry a cost.
#[derive(Debug)]
pub struct WeightedGraph<Cost> {
    /// The number of nodes.
    pub n: usize,
    /// For each node its edges, each with its target and its cost.
    pub g: Vec<Vec<(usize, Cost)>>,
}

impl<Cost: Copy> Graph for WeightedGraph<Cost> {
    type Idx = usize;

    type Cost = Cost;

    /// There is a list for each node, and every target is a node.
    open spec fn wf(&self) -> bool {
        &&& self.g.len() == self.n
        &&& forall|i: int, k: int|
            0 <= i < self.n && 0 <= k < self.g[i].len() ==> (#[trigger] self.g[i][k]).0 < self.n
    }

    open spec fn size(&self) -> nat {
        self.n as nat
    }

    open spec fn contains(&self, i: usize) -> bool {
        i < self.n
    }

    open spec fn edges_spec(&self, i: usize) -> Seq<(usize, Cost)> {
        self.g[i as int]@
    }

    open spec fn ordinal(&self, i: usize) -> int {
        i as int
    }

    proof fn lemma_ordinal(&self, i: usize, j: usize) {
    }

    proof fn lemma_ordinal_onto(&self, k: int) -> (i: usize) {
        k as usize
    }

    proof fn lemma_edges(&self, i: usize, k: int) {
        assert(self.g[i as int][k].0 < self.n);
    }

    fn len(&self) -> usize {
        self.n
    }

    fn edges(&self, i: usize) -> Vec<(usize, Cost)> {
        let list = &self.g[i];
        let mut es: Vec<(usize, Cost)> = Vec::new();
        let mut k: usize = 0;
        while k < list.len()
            invariant
                k <= list.len(),
                list@ == self.g[i as int]@,
                es.len() == k,
                forall|j: int| 0 <= j < k ==> es[j] == list[j],
            decreases list.len() - k,
        {
            es.push(list[k]);
            k += 1;
        }
        assert(es@ =~= self.edges_spec(i));
        es
    }

    fn idx_to_usize(&self, i: usize) -> usize {
        i
    }
}

} // verus!
