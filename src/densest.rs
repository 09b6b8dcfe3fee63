use vstd::prelude::*;
use crate::graph::{SimGraph, edges_valid};
use crate::closeness::{count_true, lemma_count_true_bound, lemma_count_true_set};

verus! {

/// The number of edges with both ends in `alive`.
pub open spec fn induced_edges(edges: Seq<(usize, usize)>, alive: Seq<bool>) -> nat
    decreases edges.len(),
{
    if edges.len() == 0 {
        0
    } else {
        let e = edges.last();
        induced_edges(edges.drop_last(), alive) + if alive[e.0 as int] && alive[e.1 as int] {
            1nat
        } else {
            0nat
        }
    }
}

/// The number of edges joining `v` to a node of `alive`.
pub open spec fn degree_in(edges: Seq<(usize, usize)>, alive: Seq<bool>, v: nat) -> nat
    decreases edges.len(),
{
    if edges.len() == 0 {
        0
    } else {
        let e = edges.last();
        degree_in(edges.drop_last(), alive, v) + if (e.0 as nat == v && alive[e.1 as int]) || (
        e.1 as nat == v && alive[e.0 as int]) {
            1nat
        } else {
            0nat
        }
    }
}

/// `v` is among the first `t` entries of `order`.
pub open spec fn in_prefix(order: Seq<usize>, t: int, v: usize) -> bool {
    exists|i: int| 0 <= i < t && #[trigger] order[i] == v
}

/// The nodes of `0..n` that are left after removing the first `t` of `order`.
pub open spec fn remaining(n: nat, order: Seq<usize>, t: int) -> Seq<bool> {
    Seq::new(n, |v: int| !in_prefix(order, t, v as usize))
}

/// The `t`-th removal takes a remaining node of least degree among the remaining ones.
pub open spec fn is_peel_step(edges: Seq<(usize, usize)>, n: nat, order: Seq<usize>, t: int) -> bool {
    let m = remaining(n, order, t);
    &&& order[t] < n
    &&& m[order[t] as int]
    &&& forall|v: int| 0 <= v < n && #[trigger] m[v] ==> degree_in(edges, m, order[t] as nat) <= degree_in(edges, m, v as nat)
}

/// `order` removes all `n` nodes one at a time, each of least remaining degree.
pub open spec fn is_peel_order(edges: Seq<(usize, usize)>, n: nat, order: Seq<usize>) -> bool {
    &&& order.len() == n
    &&& forall|t: int| 0 <= t < n ==> #[trigger] is_peel_step(edges, n, order, t)
}

/// `e1 / n1 > e2 / n2`, compared without division.
pub open spec fn denser(e1: nat, n1: nat, e2: nat, n2: nat) -> bool {
    e1 * n2 > e2 * n1
}

/// The densest node set met while peeling: `members` marks its nodes, which
/// induce `edge_count` edges among `node_count` nodes. Its density is
/// `edge_count / node_count`, and `0` when the set is empty.
#[derive(Debug, PartialEq, Eq)]
pub struct DenseSubgraph {
    pub members: Vec<bool>,
    pub edge_count: usize,
    pub node_count: usize,
}

/// What `densest_subgraph` returns for `order`: the candidate left after `t`
/// removals, denser than every earlier candidate and at least as dense as
/// every later one.
pub open spec fn is_densest_pick(edges: Seq<(usize, usize)>, n: nat, order: Seq<usize>, t: int, r: DenseSubgraph) -> bool {
    &&& (if n == 0 { t == 0 } else { 0 <= t < n })
    &&& r.members@ == remaining(n, order, t)
    &&& r.edge_count as nat == induced_edges(edges, r.members@)
    &&& r.node_count as nat == n - t
    &&& forall|u: int| 0 <= u < n ==> !denser(#[trigger] induced_edges(edges, remaining(n, order, u)), (n - u) as nat, r.edge_count as nat, r.node_count as nat)
    &&& forall|u: int| 0 <= u < t ==> denser(r.edge_count as nat, r.node_count as nat, #[trigger] induced_edges(edges, remaining(n, order, u)), (n - u) as nat)
}

proof fn lemma_in_prefix_push(order: Seq<usize>, x: usize, t: int, v: usize)
    requires
        0 <= t <= order.len(),
    ensures
        in_prefix(order.push(x), t, v) == in_prefix(order, t, v),
        in_prefix(order.push(x), t + 1, v) == (in_prefix(order, t, v) || (t == order.len() && v == x) || (t < order.len() && order[t] == v)),
{
    let o2 = order.push(x);
    if in_prefix(order, t, v) {
        let i = choose|i: int| 0 <= i < t && #[trigger] order[i] == v;
        assert(o2[i] == v);
    }
    if in_prefix(o2, t, v) {
        let i = choose|i: int| 0 <= i < t && #[trigger] o2[i] == v;
        assert(order[i] == v);
    }
    if t == order.len() && v == x {
        assert(o2[t] == v);
    }
    if t < order.len() && order[t] == v {
        assert(o2[t] == v);
    }
    if in_prefix(o2, t + 1, v) {
        let i = choose|i: int| 0 <= i < t + 1 && #[trigger] o2[i] == v;
        if i < t {
            assert(order[i] == v);
        }
    }
}

proof fn lemma_remaining_push(n: nat, order: Seq<usize>, x: usize, t: int)
    requires
        0 <= t <= order.len(),
    ensures
        remaining(n, order.push(x), t) == remaining(n, order, t),
{
    assert forall|v: int| 0 <= v < n implies #[trigger] remaining(n, order.push(x), t)[v] == remaining(n, order, t)[v] by {
        lemma_in_prefix_push(order, x, t, v as usize);
    }
    assert(remaining(n, order.push(x), t) =~= remaining(n, order, t));
}

proof fn lemma_remaining_next(n: nat, order: Seq<usize>, x: usize)
    requires
        x < n,
        n <= usize::MAX,
    ensures
        remaining(n, order.push(x), (order.len() + 1) as int) == remaining(n, order, order.len() as int).update(x as int, false),
{
    let t = order.len() as int;
    assert forall|v: int| 0 <= v < n implies #[trigger] remaining(n, order.push(x), t + 1)[v] == remaining(n, order, t).update(x as int, false)[v] by {
        lemma_in_prefix_push(order, x, t, v as usize);
    }
    assert(remaining(n, order.push(x), t + 1) =~= remaining(n, order, t).update(x as int, false));
}

proof fn lemma_induced_all(edges: Seq<(usize, usize)>, n: nat, alive: Seq<bool>)
    requires
        edges_valid(edges, n),
        alive.len() == n,
        forall|v: int| 0 <= v < n ==> #[trigger] alive[v],
    ensures
        induced_edges(edges, alive) == edges.len(),
    decreases edges.len(),
{
    if edges.len() > 0 {
        let e = edges.last();
        assert(edges[edges.len() - 1] == e);
        assert(edges_valid(edges.drop_last(), n)) by {
            assert forall|k: int| 0 <= k < edges.drop_last().len() implies (#[trigger] edges.drop_last()[k]).0 < edges.drop_last()[k].1 && (edges.drop_last()[k].1 as nat) < n by {
                assert(edges.drop_last()[k] == edges[k]);
            }
        }
        lemma_induced_all(edges.drop_last(), n, alive);
    }
}

proof fn lemma_some_true(m: Seq<bool>) -> (i: int)
    requires
        count_true(m) > 0,
    ensures
        0 <= i < m.len(),
        m[i],
    decreases m.len(),
{
    if m.last() {
        m.len() - 1
    } else {
        let j = lemma_some_true(m.drop_last());
        assert(m[j] == m.drop_last()[j]);
        j
    }
}

proof fn lemma_remaining_count(n: nat, order: Seq<usize>, x: usize)
    requires
        x < n,
        n <= usize::MAX,
        remaining(n, order, order.len() as int)[x as int],
    ensures
        count_true(remaining(n, order.push(x), (order.len() + 1) as int)) + 1 == count_true(remaining(n, order, order.len() as int)),
{
    let m = remaining(n, order, order.len() as int);
    let m2 = m.update(x as int, false);
    lemma_remaining_next(n, order, x);
    lemma_count_true_set(m2, x as int);
    assert(m2.update(x as int, true) =~= m);
}

/// Counts the edges among the nodes of `alive` and the degree of each of them
/// within that set.
fn alive_edges_and_degrees(g: &SimGraph, alive: &Vec<bool>) -> (r: (usize, Vec<usize>))
    requires
        g.wf(),
        alive@.len() == g.labels@.len(),
    ensures
        r.0 as nat == induced_edges(g.edges@, alive@),
        r.1@.len() == g.labels@.len(),
        forall|v: int| 0 <= v < g.labels@.len() && #[trigger] alive@[v] ==> r.1@[v] as nat == degree_in(g.edges@, alive@, v as nat),
{
    let n = g.labels.len();
    let ghost edges = g.edges@;
    let mut deg: Vec<usize> = Vec::new();
    let mut i: usize = 0;
    while i < n
        invariant
            i <= n,
            deg@.len() == i,
            forall|v: int| 0 <= v < i ==> #[trigger] deg@[v] == 0,
        decreases n - i,
    {
        deg.push(0);
        i = i + 1;
    }
    let mut count: usize = 0;
    let mut k: usize = 0;
    assert(edges.take(0) =~= Seq::<(usize, usize)>::empty());
    while k < g.edges.len()
        invariant
            g.wf(),
            edges == g.edges@,
            n == g.labels@.len(),
            alive@.len() == n,
            deg@.len() == n,
            k <= edges.len(),
            count <= k,
            count as nat == induced_edges(edges.take(k as int), alive@),
            forall|v: int| 0 <= v < n ==> #[trigger] deg@[v] <= k,
            forall|v: int| 0 <= v < n && #[trigger] alive@[v] ==> deg@[v] as nat == degree_in(edges.take(k as int), alive@, v as nat),
        decreases edges.len() - k,
    {
        let (a, b) = g.edges[k];
        assert(edges[k as int].0 < edges[k as int].1 && (edges[k as int].1 as nat) < n);
        assert(edges.take(k + 1).drop_last() =~= edges.take(k as int));
        assert(edges.take(k + 1).last() == edges[k as int]);
        if alive[a] && alive[b] {
            count = count + 1;
            let da = deg[a];
            deg.set(a, da + 1);
            let db = deg[b];
            deg.set(b, db + 1);
        }
        k = k + 1;
    }
    assert(edges.take(k as int) =~= edges);
    (count, deg)
}

/// The first node of `alive` whose degree in `deg` is least among them.
fn least_degree_node(alive: &Vec<bool>, deg: &Vec<usize>) -> (r: usize)
    requires
        alive@.len() == deg@.len(),
        count_true(alive@) > 0,
    ensures
        r < alive@.len(),
        alive@[r as int],
        forall|v: int| 0 <= v < alive@.len() && #[trigger] alive@[v] ==> deg@[r as int] <= deg@[v],
{
    let n = alive.len();
    let mut best: usize = n;
    let mut v: usize = 0;
    while v < n
        invariant
            n == alive@.len(),
            n == deg@.len(),
            v <= n,
            best == n || (best < v && alive@[best as int]),
            best == n ==> forall|w: int| 0 <= w < v ==> !#[trigger] alive@[w],
            best < n ==> forall|w: int| 0 <= w < v && #[trigger] alive@[w] ==> deg@[best as int] <= deg@[w],
        decreases n - v,
    {
        if alive[v] && (best == n || deg[v] < deg[best]) {
            best = v;
        }
        v = v + 1;
    }
    proof {
        if best == n {
            let i = lemma_some_true(alive@);
            assert(!alive@[i]);
        }
    }
    best
}

/// A copy of `m`.
fn copy_mask(m: &Vec<bool>) -> (r: Vec<bool>)
    ensures
        r@ == m@,
{
    let mut r: Vec<bool> = Vec::new();
    let mut i: usize = 0;
    while i < m.len()
        invariant
            i <= m@.len(),
            r@ == m@.take(i as int),
        decreases m@.len() - i,
    {
        r.push(m[i]);
        i = i + 1;
        assert(r@ =~= m@.take(i as int));
    }
    assert(m@.take(i as int) =~= m@);
    r
}

proof fn lemma_denser_trans(e1: nat, n1: nat, e2: nat, n2: nat, e3: nat, n3: nat)
    requires
        n1 > 0,
        n2 > 0,
        n3 > 0,
        !denser(e1, n1, e2, n2),
        denser(e3, n3, e2, n2),
    ensures
        denser(e3, n3, e1, n1),
{
    assert(e3 * n2 * n1 > e2 * n3 * n1) by (nonlinear_arith)
        requires
            e3 * n2 > e2 * n3,
            n1 > 0,
    ;
    assert(e2 * n1 * n3 >= e1 * n2 * n3) by (nonlinear_arith)
        requires
            e1 * n2 <= e2 * n1,
    ;
    assert(n2 * (e3 * n1) > n2 * (e1 * n3)) by (nonlinear_arith)
        requires
            e3 * n2 * n1 > e2 * n3 * n1,
            e2 * n1 * n3 >= e1 * n2 * n3,
    ;
    assert(e3 * n1 > e1 * n3) by (nonlinear_arith)
        requires
            n2 * (e3 * n1) > n2 * (e1 * n3),
            n2 > 0,
    ;
}

/// Greedy peeling: starting from the whole graph, repeatedly removes a
/// remaining node of least degree until none is left, and returns the
/// densest of the node sets met on the way (the earliest among equals).
pub fn densest_subgraph(g: &SimGraph) -> (r: DenseSubgraph)
    requires
        g.wf(),
    ensures
        exists|order: Seq<usize>, t: int|
            is_peel_order(g.edges@, g.labels@.len(), order) && #[trigger] is_densest_pick(g.edges@, g.labels@.len(), order, t, r),
        g.edges@.len() * r.node_count <= r.edge_count * g.labels@.len(),
        g.labels@.len() == 0 ==> r.node_count == 0 && r.edge_count == 0 && r.members@.len() == 0,
        r.members@.len() == g.labels@.len(),
{
    let n = g.labels.len();
    let ghost edges = g.edges@;
    let ghost nn = n as nat;
    let mut alive: Vec<bool> = Vec::new();
    let mut i: usize = 0;
    while i < n
        invariant
            i <= n,
            alive@.len() == i,
            forall|v: int| 0 <= v < i ==> #[trigger] alive@[v],
            count_true(alive@) == i,
        decreases n - i,
    {
        assert(alive@.push(true).drop_last() == alive@);
        alive.push(true);
        i = i + 1;
    }
    let ghost mut order: Seq<usize> = Seq::empty();
    assert(alive@ =~= remaining(nn, order, 0));
    proof {
        lemma_induced_all(edges, nn, alive@);
        if n == 0 && edges.len() > 0 {
            assert(edges[0].0 < edges[0].1 && (edges[0].1 as nat) < nn);
        }
    }
    let mut best = DenseSubgraph { members: copy_mask(&alive), edge_count: g.edges.len(), node_count: n };
    let ghost mut best_t: int = 0;
    let mut t: usize = 0;
    while t < n
        invariant
            g.wf(),
            edges == g.edges@,
            n == g.labels@.len(),
            nn == n as nat,
            t <= n,
            order.len() == t,
            alive@ == remaining(nn, order, t as int),
            count_true(alive@) == n - t,
            forall|u: int| 0 <= u < t ==> #[trigger] is_peel_step(edges, nn, order, u),
            0 <= best_t <= t,
            n > 0 ==> best_t < n,
            n == 0 ==> best.edge_count == 0,
            best.members@ == remaining(nn, order, best_t),
            best.edge_count as nat == induced_edges(edges, best.members@),
            best.node_count as nat == n - best_t,
            forall|u: int| 0 <= u < t ==> !denser(#[trigger] induced_edges(edges, remaining(nn, order, u)), (n - u) as nat, best.edge_count as nat, best.node_count as nat),
            forall|u: int| 0 <= u < best_t ==> denser(best.edge_count as nat, best.node_count as nat, #[trigger] induced_edges(edges, remaining(nn, order, u)), (n - u) as nat),
        decreases n - t,
    {
        let (e, deg) = alive_edges_and_degrees(g, &alive);
        let nodes = n - t;
        proof {
            assert((e as u128) * (best.node_count as u128) <= 0xffff_ffff_ffff_ffff_ffff_ffff_ffff_ffffu128) by (nonlinear_arith)
                requires
                    e <= 0xffff_ffff_ffff_ffffu64,
                    best.node_count <= 0xffff_ffff_ffff_ffffu64,
            ;
            assert((best.edge_count as u128) * (nodes as u128) <= 0xffff_ffff_ffff_ffff_ffff_ffff_ffff_ffffu128) by (nonlinear_arith)
                requires
                    best.edge_count <= 0xffff_ffff_ffff_ffffu64,
                    nodes <= 0xffff_ffff_ffff_ffffu64,
            ;
        }
        let ghost old_e = best.edge_count as nat;
        let ghost old_n = best.node_count as nat;
        assert(remaining(nn, order, t as int) == alive@);
        let ghost replaced = denser(e as nat, nodes as nat, old_e, old_n);
        if (e as u128) * (best.node_count as u128) > (best.edge_count as u128) * (nodes as u128) {
            best = DenseSubgraph { members: copy_mask(&alive), edge_count: e, node_count: nodes };
            proof {
                best_t = t as int;
                assert forall|u: int| 0 <= u < t implies denser(best.edge_count as nat, best.node_count as nat, #[trigger] induced_edges(edges, remaining(nn, order, u)), (n - u) as nat) by {
                    lemma_denser_trans(induced_edges(edges, remaining(nn, order, u)), (n - u) as nat, old_e, old_n, e as nat, nodes as nat);
                }
            }
        }
        assert(replaced ==> best.edge_count == e && best.node_count == nodes);
        assert(!replaced ==> best.edge_count as nat == old_e && best.node_count as nat == old_n);
        assert forall|u: int| 0 <= u < t + 1 implies !denser(#[trigger] induced_edges(edges, remaining(nn, order, u)), (n - u) as nat, best.edge_count as nat, best.node_count as nat) by {
            if u < t && replaced {
                lemma_denser_trans(induced_edges(edges, remaining(nn, order, u)), (n - u) as nat, old_e, old_n, e as nat, nodes as nat);
            }
        }
        proof {
            lemma_count_true_bound(alive@);
        }
        let v = least_degree_node(&alive, &deg);
        proof {
            let o2 = order.push(v);
            assert forall|u: int| 0 <= u <= t implies #[trigger] remaining(nn, o2, u) == remaining(nn, order, u) by {
                lemma_remaining_push(nn, order, v, u);
            }
            lemma_remaining_next(nn, order, v);
            lemma_remaining_count(nn, order, v);
            assert(o2[t as int] == v);
            assert(is_peel_step(edges, nn, o2, t as int));
            assert forall|u: int| 0 <= u < t implies #[trigger] is_peel_step(edges, nn, o2, u) by {
                assert(is_peel_step(edges, nn, order, u));
                assert(o2[u] == order[u]);
            }
            assert forall|u: int| 0 <= u < t + 1 implies !denser(#[trigger] induced_edges(edges, remaining(nn, o2, u)), (n - u) as nat, best.edge_count as nat, best.node_count as nat) by {
                assert(!denser(induced_edges(edges, remaining(nn, order, u)), (n - u) as nat, best.edge_count as nat, best.node_count as nat));
            }
            assert forall|u: int| 0 <= u < best_t implies denser(best.edge_count as nat, best.node_count as nat, #[trigger] induced_edges(edges, remaining(nn, o2, u)), (n - u) as nat) by {
                assert(denser(best.edge_count as nat, best.node_count as nat, induced_edges(edges, remaining(nn, order, u)), (n - u) as nat));
            }
            order = o2;
        }
        alive.set(v, false);
        t = t + 1;
    }
    proof {
        if n > 0 {
            assert(remaining(nn, order, 0) =~= Seq::new(nn, |v: int| true));
            lemma_induced_all(edges, nn, remaining(nn, order, 0));
            assert(!denser(induced_edges(edges, remaining(nn, order, 0)), nn, best.edge_count as nat, best.node_count as nat));
        }
        assert(is_peel_order(edges, nn, order));
        assert(is_densest_pick(edges, nn, order, best_t, best));
    }
    best
}

} // verus!
