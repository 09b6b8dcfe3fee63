use vstd::prelude::*;

verus! {

/// An undirected graph whose nodes are `0..labels.len()`, node `i` carrying
/// the identifier `labels[i]`. Each edge `(a, b)` is stored once with `a < b`.
pub struct SimGraph {
    pub labels: Vec<String>,
    pub edges: Vec<(usize, usize)>,
}

/// Every edge joins two distinct nodes of a graph with `n` nodes, lower end first.
pub open spec fn edges_valid(edges: Seq<(usize, usize)>, n: nat) -> bool {
    forall|k: int| 0 <= k < edges.len() ==> (#[trigger] edges[k]).0 < edges[k].1 && (edges[k].1 as nat) < n
}

/// `p` comes before `q` in row-by-row order.
pub open spec fn pair_lt(p: (usize, usize), q: (usize, usize)) -> bool {
    p.0 < q.0 || (p.0 == q.0 && p.1 < q.1)
}

/// The edges are listed in strictly increasing row-by-row order, so no pair
/// of nodes is joined twice.
pub open spec fn edges_sorted(edges: Seq<(usize, usize)>) -> bool {
    forall|k1: int, k2: int| 0 <= k1 < k2 < edges.len() ==> pair_lt(#[trigger] edges[k1], #[trigger] edges[k2])
}

/// `u` and `v` are joined by some edge, in either direction.
pub open spec fn adjacent(edges: Seq<(usize, usize)>, u: nat, v: nat) -> bool {
    exists|k: int|
        0 <= k < edges.len() && (((#[trigger] edges[k]).0 as nat == u && edges[k].1 as nat == v) || (
        edges[k].0 as nat == v && edges[k].1 as nat == u))
}

impl SimGraph {
    pub open spec fn node_total(&self) -> nat {
        self.labels@.len()
    }

    pub open spec fn wf(&self) -> bool {
        edges_valid(self.edges@, self.labels@.len())
    }

    /// Number of nodes.
    pub fn node_count(&self) -> (r: usize)
        ensures
            r == self.labels@.len(),
    {
        self.labels.len()
    }

    /// The node labelled `name`; where several are, the last of them.
    pub fn node_index(&self, name: &String) -> (r: Option<usize>)
        ensures
            r is None <==> forall|i: int| 0 <= i < self.labels@.len() ==> #[trigger] self.labels@[i]@ != name@,
            r matches Some(i) ==> i < self.labels@.len() && self.labels@[i as int]@ == name@ && forall|j: int|
                i < j < self.labels@.len() ==> #[trigger] self.labels@[j]@ != name@,
    {
        let mut i: usize = self.labels.len();
        while i > 0
            invariant
                i <= self.labels@.len(),
                forall|j: int| i <= j < self.labels@.len() ==> #[trigger] self.labels@[j]@ != name@,
            decreases i,
        {
            if self.labels[i - 1] == *name {
                return Some(i - 1);
            }
            i = i - 1;
        }
        None
    }

    /// Number of edges.
    pub fn edge_count(&self) -> (r: usize)
        ensures
            r == self.edges@.len(),
    {
        self.edges.len()
    }
}

} // verus!
