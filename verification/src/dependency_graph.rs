//! Conflict graph over a block of analyzed transactions: node `j` is a
//! dependent neighbour of node `i` exactly when the two transactions
//! conflict — one's writes touch the other's reads or writes. The graph is
//! built once per partitioning call, deterministically, and is independent
//! of the shard count.

use crate::transaction::{conflict, AnalyzedTransaction};
use vstd::prelude::*;

verus! {

/// Adjacency lists of the conflict graph, indexed by transaction position.
pub struct DependencyGraph {
    adj: Vec<Vec<usize>>,
}

impl DependencyGraph {
    /// The adjacency lists as sequences.
    pub closed spec fn adjacency(self) -> Seq<Seq<usize>> {
        self.adj@.map_values(|row: Vec<usize>| row@)
    }

    /// A graph over `txns` is one row per transaction, each row holding
    /// exactly the conflicting neighbours.
    pub open spec fn wf_for(self, txns: Seq<AnalyzedTransaction>) -> bool {
        &&& self.adjacency().len() == txns.len()
        &&& forall|i: int, j: usize|
            0 <= i < txns.len() ==> (#[trigger] self.adjacency()[i].contains(j) <==> j
                < txns.len() && j != i && conflict(txns[i], txns[j as int]))
    }

    /// Build the conflict graph of `txns`.
    pub fn create_dependency_graph(txns: &Vec<AnalyzedTransaction>) -> (g: DependencyGraph)
        ensures
            g.wf_for(txns@),
    {
        let n = txns.len();
        let mut adj: Vec<Vec<usize>> = Vec::new();
        let mut i: usize = 0;
        while i < n
            invariant
                n == txns@.len(),
                i <= n,
                adj@.len() == i,
                forall|p: int, j: usize|
                    0 <= p < i ==> (#[trigger] adj@[p]@.contains(j) <==> j < n && j != p
                        && conflict(txns@[p], txns@[j as int])),
            decreases n - i,
        {
            let mut row: Vec<usize> = Vec::new();
            let mut j: usize = 0;
            while j < n
                invariant
                    n == txns@.len(),
                    i < n,
                    j <= n,
                    forall|k: int|
                        0 <= k < row@.len() ==> (#[trigger] row@[k]) < j && row@[k] != i
                            && conflict(txns@[i as int], txns@[row@[k] as int]),
                    forall|u: usize|
                        u < j && u != i && conflict(txns@[i as int], txns@[u as int])
                            ==> row@.contains(u),
                decreases n - j,
            {
                if j != i && txns[i].conflicts_with(&txns[j]) {
                    let ghost row0 = row@;
                    row.push(j);
                    proof {
                        assert forall|u: usize|
                            u < j + 1 && u != i && conflict(
                                txns@[i as int],
                                txns@[u as int],
                            ) implies row@.contains(u) by {
                            if u < j {
                                assert(row0.contains(u));
                                let k = choose|k: int| 0 <= k < row0.len() && row0[k] == u;
                                assert(row@.len() == row0.len() + 1);
                                assert(row@[k] == u);
                            } else {
                                assert(u == j);
                                assert(row@[row@.len() - 1] == u);
                            }
                        }
                    }
                }
                j += 1;
            }
            adj.push(row);
            proof {
                assert forall|p: int, j2: usize|
                    0 <= p < i + 1 implies (#[trigger] adj@[p]@.contains(j2) <==> j2 < n && j2 != p
                    && conflict(txns@[p], txns@[j2 as int])) by {
                    if p < i {
                        assert(adj@[p] == adj@.drop_last()[p]);
                    } else {
                        assert(adj@[p] == row);
                        if adj@[p]@.contains(j2) {
                            let k = choose|k: int| 0 <= k < row@.len() && row@[k] == j2;
                            assert(row@[k] < n && row@[k] != i);
                        }
                    }
                }
            }
            i += 1;
        }
        let g = DependencyGraph { adj };
        proof {
            assert(g.adjacency().len() == txns@.len());
        }
        g
    }

    /// The conflicting neighbours of the transaction at position `i`.
    pub fn get_dependent_nodes(&self, i: usize) -> (r: &Vec<usize>)
        requires
            i < self.adjacency().len(),
        ensures
            r@ == self.adjacency()[i as int],
    {
        &self.adj[i]
    }
}

} // verus!
