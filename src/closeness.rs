use vstd::prelude::*;
use crate::graph::{SimGraph, adjacent, edges_valid};

verus! {

/// `v` can be reached from `s` in at most `d` hops.
pub open spec fn within(edges: Seq<(usize, usize)>, s: nat, v: nat, d: nat) -> bool
    decreases d,
{
    if d == 0 {
        v == s
    } else {
        within(edges, s, v, (d - 1) as nat) || exists|u: nat|
            #![trigger adjacent(edges, u, v)]
            within(edges, s, u, (d - 1) as nat) && adjacent(edges, u, v)
    }
}

/// `v` lies in the connected component of `s`.
pub open spec fn reachable(edges: Seq<(usize, usize)>, s: nat, v: nat) -> bool {
    exists|d: nat| within(edges, s, v, d)
}

/// `d` is the fewest hops from `s` to `v`.
pub open spec fn is_hop_distance(edges: Seq<(usize, usize)>, s: nat, v: nat, d: nat) -> bool {
    within(edges, s, v, d) && forall|e: nat| e < d ==> !within(edges, s, v, e)
}

/// The hop distance from `s` to a reachable `v`.
pub open spec fn hop_distance(edges: Seq<(usize, usize)>, s: nat, v: nat) -> nat {
    choose|d: nat| is_hop_distance(edges, s, v, d)
}

/// How many of the nodes below `u` are reachable from `s`.
pub open spec fn reach_count(edges: Seq<(usize, usize)>, s: nat, u: nat) -> nat
    decreases u,
{
    if u == 0 {
        0
    } else {
        reach_count(edges, s, (u - 1) as nat) + if reachable(edges, s, (u - 1) as nat) {
            1nat
        } else {
            0nat
        }
    }
}

/// The sum of the hop distances from `s` to the reachable nodes below `u`.
pub open spec fn distance_sum(edges: Seq<(usize, usize)>, s: nat, u: nat) -> nat
    decreases u,
{
    if u == 0 {
        0
    } else {
        distance_sum(edges, s, (u - 1) as nat) + if reachable(edges, s, (u - 1) as nat) {
            hop_distance(edges, s, (u - 1) as nat)
        } else {
            0nat
        }
    }
}

/// The number of `true` entries.
pub open spec fn count_true(m: Seq<bool>) -> nat
    decreases m.len(),
{
    if m.len() == 0 {
        0
    } else {
        count_true(m.drop_last()) + if m.last() {
            1nat
        } else {
            0nat
        }
    }
}

/// Closeness of one node, as the two integers it is computed from: the
/// number of nodes reached (the node itself included) and the sum of their
/// hop distances. The score is `(reached - 1) / total_distance`, and `0`
/// when `total_distance` is `0`.
#[derive(Debug, Clone, Copy, PartialEq, Eq)]
pub struct Closeness {
    pub reached: usize,
    pub total_distance: u128,
}

pub proof fn lemma_count_true_bound(m: Seq<bool>)
    ensures
        count_true(m) <= m.len(),
    decreases m.len(),
{
    if m.len() > 0 {
        lemma_count_true_bound(m.drop_last());
    }
}

pub proof fn lemma_count_true_set(m: Seq<bool>, i: int)
    requires
        0 <= i < m.len(),
        !m[i],
    ensures
        count_true(m.update(i, true)) == count_true(m) + 1,
    decreases m.len(),
{
    let m2 = m.update(i, true);
    if i < m.len() - 1 {
        assert(m2.drop_last() == m.drop_last().update(i, true));
        lemma_count_true_set(m.drop_last(), i);
    } else {
        assert(m2.drop_last() == m.drop_last());
    }
}

proof fn lemma_within_mono(edges: Seq<(usize, usize)>, s: nat, v: nat, d1: nat, d2: nat)
    requires
        d1 <= d2,
        within(edges, s, v, d1),
    ensures
        within(edges, s, v, d2),
    decreases d2 - d1,
{
    if d1 < d2 {
        lemma_within_mono(edges, s, v, d1, (d2 - 1) as nat);
    }
}

proof fn lemma_within_range(edges: Seq<(usize, usize)>, n: nat, s: nat, v: nat, d: nat)
    requires
        edges_valid(edges, n),
        s < n,
        within(edges, s, v, d),
    ensures
        v < n,
    decreases d,
{
    if d > 0 {
        if !within(edges, s, v, (d - 1) as nat) {
            let u = choose|u: nat| #![trigger adjacent(edges, u, v)]
                within(edges, s, u, (d - 1) as nat) && adjacent(edges, u, v);
            let k = choose|k: int|
                0 <= k < edges.len() && ((#[trigger] edges[k]).0 as nat == u && edges[k].1 as nat
                    == v || edges[k].0 as nat == v && edges[k].1 as nat == u);
            assert(edges[k].0 < edges[k].1 && (edges[k].1 as nat) < n);
        } else {
            lemma_within_range(edges, n, s, v, (d - 1) as nat);
        }
    }
}

/// Once one more hop reaches nothing new, no number of hops does.
proof fn lemma_within_stable(edges: Seq<(usize, usize)>, s: nat, level: nat, d: nat, v: nat)
    requires
        forall|w: nat| within(edges, s, w, level + 1) ==> within(edges, s, w, level),
        level <= d,
        within(edges, s, v, d),
    ensures
        within(edges, s, v, level),
    decreases d,
{
    if d > level {
        if within(edges, s, v, (d - 1) as nat) {
            lemma_within_stable(edges, s, level, (d - 1) as nat, v);
        } else {
            let u = choose|u: nat| #![trigger adjacent(edges, u, v)]
                within(edges, s, u, (d - 1) as nat) && adjacent(edges, u, v);
            lemma_within_stable(edges, s, level, (d - 1) as nat, u);
            assert(within(edges, s, v, level + 1));
        }
    }
}

proof fn lemma_hop_distance_unique(edges: Seq<(usize, usize)>, s: nat, v: nat, d: nat)
    requires
        is_hop_distance(edges, s, v, d),
    ensures
        reachable(edges, s, v),
        hop_distance(edges, s, v) == d,
{
    let h = hop_distance(edges, s, v);
    assert(is_hop_distance(edges, s, v, h));
    if h < d {
        assert(!within(edges, s, v, h));
    }
    if d < h {
        assert(!within(edges, s, v, d));
    }
}

proof fn lemma_isolated_within(edges: Seq<(usize, usize)>, s: nat, v: nat, d: nat)
    requires
        forall|k: int| 0 <= k < edges.len() ==> (#[trigger] edges[k]).0 as nat != s && edges[k].1 as nat != s,
        within(edges, s, v, d),
    ensures
        v == s,
    decreases d,
{
    if d > 0 {
        if within(edges, s, v, (d - 1) as nat) {
            lemma_isolated_within(edges, s, v, (d - 1) as nat);
        } else {
            let u = choose|u: nat| #![trigger adjacent(edges, u, v)]
                within(edges, s, u, (d - 1) as nat) && adjacent(edges, u, v);
            lemma_isolated_within(edges, s, u, (d - 1) as nat);
            let k = choose|k: int|
                0 <= k < edges.len() && ((#[trigger] edges[k]).0 as nat == u && edges[k].1 as nat
                    == v || edges[k].0 as nat == v && edges[k].1 as nat == u);
        }
    }
}

proof fn lemma_isolated_counts(edges: Seq<(usize, usize)>, s: nat, u: nat)
    requires
        forall|k: int| 0 <= k < edges.len() ==> (#[trigger] edges[k]).0 as nat != s && edges[k].1 as nat != s,
    ensures
        reach_count(edges, s, u) == if s < u { 1nat } else { 0nat },
        distance_sum(edges, s, u) == 0,
    decreases u,
{
    if u > 0 {
        let w = (u - 1) as nat;
        lemma_isolated_counts(edges, s, w);
        if reachable(edges, s, w) {
            let d = choose|d: nat| within(edges, s, w, d);
            lemma_isolated_within(edges, s, w, d);
            assert(is_hop_distance(edges, s, s, 0));
            lemma_hop_distance_unique(edges, s, s, 0);
        }
        if w == s {
            assert(within(edges, s, s, 0));
        }
    }
}

proof fn lemma_complete_counts(edges: Seq<(usize, usize)>, n: nat, s: nat, u: nat)
    requires
        edges_valid(edges, n),
        forall|a: nat, b: nat| a < n && b < n && a != b ==> #[trigger] adjacent(edges, a, b),
        s < n,
        u <= n,
    ensures
        reach_count(edges, s, u) == u,
        distance_sum(edges, s, u) == if s < u { (u - 1) as nat } else { u },
    decreases u,
{
    if u > 0 {
        let w = (u - 1) as nat;
        lemma_complete_counts(edges, n, s, w);
        if w == s {
            assert(within(edges, s, s, 0));
            assert(is_hop_distance(edges, s, s, 0));
            lemma_hop_distance_unique(edges, s, s, 0);
        } else {
            assert(adjacent(edges, s, w));
            assert(within(edges, s, s, 0));
            assert(within(edges, s, w, 1));
            assert(is_hop_distance(edges, s, w, 1));
            lemma_hop_distance_unique(edges, s, w, 1);
        }
    }
}

/// A node that no edge touches reaches only itself, at distance zero, so
/// its closeness score is `0`.
pub proof fn lemma_isolated_node(edges: Seq<(usize, usize)>, n: nat, s: nat)
    requires
        s < n,
        forall|k: int| 0 <= k < edges.len() ==> (#[trigger] edges[k]).0 as nat != s && edges[k].1 as nat != s,
    ensures
        reach_count(edges, s, n) == 1,
        distance_sum(edges, s, n) == 0,
{
    lemma_isolated_counts(edges, s, n);
}

/// In a graph of `n` nodes where every two distinct nodes are adjacent, each
/// node reaches all `n` nodes, every other one at distance one: its score is
/// `(n - 1) / (n - 1) = 1` once `n > 1`.
pub proof fn lemma_complete_graph_node(edges: Seq<(usize, usize)>, n: nat, s: nat)
    requires
        edges_valid(edges, n),
        forall|a: nat, b: nat| a < n && b < n && a != b ==> #[trigger] adjacent(edges, a, b),
        s < n,
    ensures
        reach_count(edges, s, n) == n,
        distance_sum(edges, s, n) == n - 1,
{
    lemma_complete_counts(edges, n, s, n);
}

/// Marks every node one hop past the nodes at distance `level` that is not
/// yet marked, giving it distance `level + 1`. Returns whether any was marked.
fn expand_level(g: &SimGraph, s: usize, level: usize, seen: &mut Vec<bool>, dist: &mut Vec<usize>, count: &mut usize) -> (changed: bool)
    requires
        g.wf(),
        s < g.labels@.len(),
        level < *old(count),
        old(seen)@.len() == g.labels@.len(),
        old(dist)@.len() == g.labels@.len(),
        *old(count) == count_true(old(seen)@),
        forall|v: int| 0 <= v < g.labels@.len() ==> (#[trigger] old(seen)@[v] <==> within(g.edges@, s as nat, v as nat, level as nat)),
        forall|v: int| 0 <= v < g.labels@.len() && #[trigger] old(seen)@[v] ==> old(dist)@[v] <= level && is_hop_distance(g.edges@, s as nat, v as nat, old(dist)@[v] as nat),
    ensures
        final(seen)@.len() == g.labels@.len(),
        final(dist)@.len() == g.labels@.len(),
        *final(count) == count_true(final(seen)@),
        changed ==> *final(count) > *old(count),
        !changed ==> final(seen)@ == old(seen)@ && *final(count) == *old(count),
        forall|v: int| 0 <= v < g.labels@.len() ==> (#[trigger] final(seen)@[v] <==> within(g.edges@, s as nat, v as nat, (level + 1) as nat)),
        forall|v: int| 0 <= v < g.labels@.len() && #[trigger] final(seen)@[v] ==> final(dist)@[v] <= level + 1 && is_hop_distance(g.edges@, s as nat, v as nat, final(dist)@[v] as nat),
{
    let ghost edges = g.edges@;
    let n_nodes = g.labels.len();
    let ghost n = n_nodes as nat;
    let ghost seen0 = seen@;
    let ghost dist0 = dist@;
    let ghost count0 = *count;
    let ghost lv = level as nat;
    let ghost sn = s as nat;
    let mut changed = false;
    let mut k: usize = 0;
    proof {
        lemma_count_true_bound(seen@);
    }
    while k < g.edges.len()
        invariant
            g.wf(),
            edges == g.edges@,
            n == g.labels@.len(),
            n == n_nodes,
            seen0.len() == n,
            dist0.len() == n,
            sn == s as nat,
            lv == level as nat,
            s < n,
            level < count0,
            k <= edges.len(),
            seen@.len() == n,
            dist@.len() == n,
            *count == count_true(seen@),
            *count <= n,
            count0 == count_true(seen0),
            changed ==> *count > count0,
            !changed ==> seen@ == seen0 && *count == count0,
            forall|v: int| 0 <= v < n ==> (#[trigger] seen0[v] <==> within(edges, sn, v as nat, lv)),
            forall|v: int| 0 <= v < n && #[trigger] seen0[v] ==> dist0[v] <= level && is_hop_distance(edges, sn, v as nat, dist0[v] as nat),
            forall|v: int| 0 <= v < n && #[trigger] seen0[v] ==> seen@[v] && dist@[v] == dist0[v],
            forall|v: int| 0 <= v < n && #[trigger] seen@[v] && !seen0[v] ==> dist@[v] == level + 1 && within(edges, sn, v as nat, lv + 1),
            forall|j: int| 0 <= j < k ==> ((seen0[(#[trigger] edges[j]).0 as int] && dist0[edges[j].0 as int] == level) ==> seen@[edges[j].1 as int]),
            forall|j: int| 0 <= j < k ==> ((seen0[(#[trigger] edges[j]).1 as int] && dist0[edges[j].1 as int] == level) ==> seen@[edges[j].0 as int]),
        decreases edges.len() - k,
    {
        let (a, b) = g.edges[k];
        assert(edges[k as int].0 < edges[k as int].1 && (edges[k as int].1 as nat) < n);
        if seen[a] && dist[a] == level && !seen[b] {
            proof {
                assert(seen0[a as int]);
                assert(adjacent(edges, a as nat, b as nat));
                assert(within(edges, sn, b as nat, lv + 1));
                lemma_count_true_set(seen@, b as int);
                lemma_count_true_bound(seen@.update(b as int, true));
            }
            seen.set(b, true);
            dist.set(b, level + 1);
            *count = *count + 1;
            changed = true;
        } else if seen[b] && dist[b] == level && !seen[a] {
            proof {
                assert(seen0[b as int]);
                assert(adjacent(edges, b as nat, a as nat));
                assert(within(edges, sn, a as nat, lv + 1));
                lemma_count_true_set(seen@, a as int);
                lemma_count_true_bound(seen@.update(a as int, true));
            }
            seen.set(a, true);
            dist.set(a, level + 1);
            *count = *count + 1;
            changed = true;
        }
        k = k + 1;
    }
    assert forall|v: int| 0 <= v < n implies (#[trigger] seen@[v] <==> within(edges, sn, v as nat, lv + 1)) by {
        if seen@[v] && seen0[v] {
            assert(within(edges, sn, v as nat, lv));
            assert(within(edges, sn, v as nat, lv + 1));
        }
        if within(edges, sn, v as nat, lv) {
            assert(seen0[v]);
            assert(seen@[v]);
        }
        if within(edges, sn, v as nat, lv + 1) && !within(edges, sn, v as nat, lv) {
            let u = choose|u: nat| #![trigger adjacent(edges, u, v as nat)]
                within(edges, sn, u, lv) && adjacent(edges, u, v as nat);
            let j = choose|j: int|
                0 <= j < edges.len() && ((#[trigger] edges[j]).0 as nat == u && edges[j].1 as nat
                    == v as nat || edges[j].0 as nat == v as nat && edges[j].1 as nat == u);
            assert(edges[j].0 < edges[j].1 && (edges[j].1 as nat) < n);
            assert(seen0[u as int]);
            let du = dist0[u as int] as nat;
            if du < lv {
                assert(within(edges, sn, v as nat, du + 1));
                lemma_within_mono(edges, sn, v as nat, du + 1, lv);
            }
            assert(du == lv);
            assert(seen@[v]);
        }
    }
    assert forall|v: int| 0 <= v < n && #[trigger] seen@[v] implies dist@[v] <= level + 1 && is_hop_distance(edges, sn, v as nat, dist@[v] as nat) by {
        if !seen0[v] {
            assert forall|e: nat| e < lv + 1 implies !#[trigger] within(edges, sn, v as nat, e) by {
                if within(edges, sn, v as nat, e) {
                    lemma_within_mono(edges, sn, v as nat, e, lv);
                }
            }
        }
    }
    changed
}

/// Closeness of node `s`: how many nodes its component holds and the sum of
/// their hop distances from `s`, found level by level.
pub fn closeness_of(g: &SimGraph, s: usize) -> (r: Closeness)
    requires
        g.wf(),
        s < g.labels@.len(),
    ensures
        r.reached as nat == reach_count(g.edges@, s as nat, g.labels@.len()),
        r.total_distance as nat == distance_sum(g.edges@, s as nat, g.labels@.len()),
{
    let n = g.labels.len();
    let ghost edges = g.edges@;
    let ghost sn = s as nat;
    let mut seen: Vec<bool> = Vec::new();
    let mut dist: Vec<usize> = Vec::new();
    let mut i: usize = 0;
    while i < n
        invariant
            i <= n,
            seen@.len() == i,
            dist@.len() == i,
            forall|v: int| 0 <= v < i ==> !#[trigger] seen@[v],
            forall|v: int| 0 <= v < i ==> #[trigger] dist@[v] == 0,
            count_true(seen@) == 0,
        decreases n - i,
    {
        assert(seen@.push(false).drop_last() == seen@);
        seen.push(false);
        dist.push(0);
        i = i + 1;
    }
    proof {
        lemma_count_true_set(seen@, s as int);
    }
    seen.set(s, true);
    assert forall|v: int| 0 <= v < n && #[trigger] seen@[v] implies dist@[v] <= 0 && is_hop_distance(edges, sn, v as nat, dist@[v] as nat) by {
        assert(v == s);
        assert(dist@[v] == 0);
        assert(within(edges, sn, v as nat, 0));
    }
    let mut count: usize = 1;
    let mut level: usize = 0;
    let mut changed = true;
    while changed
        invariant
            g.wf(),
            edges == g.edges@,
            n == g.labels@.len(),
            sn == s as nat,
            s < n,
            seen@.len() == n,
            dist@.len() == n,
            count == count_true(seen@),
            count <= n,
            level < count,
            forall|v: int| 0 <= v < n ==> (#[trigger] seen@[v] <==> within(edges, sn, v as nat, level as nat)),
            forall|v: int| 0 <= v < n && #[trigger] seen@[v] ==> dist@[v] <= level && is_hop_distance(edges, sn, v as nat, dist@[v] as nat),
            !changed ==> forall|v: int| 0 <= v < n && #[trigger] within(edges, sn, v as nat, (level + 1) as nat) ==> within(edges, sn, v as nat, level as nat),
        decreases n - count + if changed { 1int } else { 0int },
    {
        proof {
            lemma_count_true_bound(seen@);
        }
        let ghost seen_before = seen@;
        changed = expand_level(g, s, level, &mut seen, &mut dist, &mut count);
        proof {
            lemma_count_true_bound(seen@);
        }
        if changed {
            level = level + 1;
            assert forall|v: int| 0 <= v < n && #[trigger] seen@[v] implies dist@[v] <= level && is_hop_distance(edges, sn, v as nat, dist@[v] as nat) by {}
        } else {
            assert forall|v: int| 0 <= v < n && #[trigger] within(edges, sn, v as nat, (level + 1) as nat) implies within(edges, sn, v as nat, level as nat) by {
                assert(seen@[v]);
                assert(seen_before[v]);
            }
        }
    }
    proof {
        assert forall|w: nat| within(edges, sn, w, (level + 1) as nat) implies within(edges, sn, w, level as nat) by {
            lemma_within_range(edges, n as nat, sn, w, (level + 1) as nat);
            let wi = w as int;
            assert(wi as nat == w);
            assert(0 <= wi < n);
            assert(within(edges, sn, wi as nat, (level + 1) as nat));
        }
    }
    let mut reached: usize = 0;
    let mut total: u128 = 0;
    let mut u: usize = 0;
    while u < n
        invariant
            g.wf(),
            edges == g.edges@,
            n == g.labels@.len(),
            sn == s as nat,
            s < n,
            u <= n,
            seen@.len() == n,
            dist@.len() == n,
            forall|v: int| 0 <= v < n ==> (#[trigger] seen@[v] <==> within(edges, sn, v as nat, level as nat)),
            forall|v: int| 0 <= v < n && #[trigger] seen@[v] ==> dist@[v] <= level && is_hop_distance(edges, sn, v as nat, dist@[v] as nat),
            forall|w: nat| #[trigger] within(edges, sn, w, (level + 1) as nat) ==> within(edges, sn, w, level as nat),
            level < n,
            reached <= u,
            reached as nat == reach_count(edges, sn, u as nat),
            total as nat == distance_sum(edges, sn, u as nat),
            total <= u * n,
        decreases n - u,
    {
        proof {
            if within(edges, sn, u as nat, level as nat) {
                assert(reachable(edges, sn, u as nat));
            }
            if reachable(edges, sn, u as nat) {
                let d = choose|d: nat| within(edges, sn, u as nat, d);
                if d >= level {
                    lemma_within_stable(edges, sn, level as nat, d, u as nat);
                } else {
                    lemma_within_mono(edges, sn, u as nat, d, level as nat);
                }
                assert(seen@[u as int]);
            }
        }
        if seen[u] {
            proof {
                lemma_hop_distance_unique(edges, sn, u as nat, dist@[u as int] as nat);
                assert(total + dist@[u as int] <= (u + 1) * n) by (nonlinear_arith)
                    requires
                        total <= u * n,
                        dist@[u as int] < n,
                ;
                assert((u + 1) * n <= 0xffff_ffff_ffff_ffff_ffff_ffff_ffff_ffffu128) by (nonlinear_arith)
                    requires
                        u < n,
                        n <= 0xffff_ffff_ffff_ffffu64,
                ;
            }
            reached = reached + 1;
            total = total + dist[u] as u128;
        } else {
            assert(u * n <= (u + 1) * n) by (nonlinear_arith);
        }
        u = u + 1;
    }
    Closeness { reached, total_distance: total }
}

/// Closeness of every node, in node order.
pub fn compute_closeness_centrality(g: &SimGraph) -> (r: Vec<Closeness>)
    requires
        g.wf(),
    ensures
        r@.len() == g.labels@.len(),
        forall|v: int| 0 <= v < r@.len() ==> (#[trigger] r@[v]).reached as nat == reach_count(g.edges@, v as nat, g.labels@.len())
            && r@[v].total_distance as nat == distance_sum(g.edges@, v as nat, g.labels@.len()),
{
    let mut out: Vec<Closeness> = Vec::new();
    let mut v: usize = 0;
    while v < g.labels.len()
        invariant
            g.wf(),
            v <= g.labels@.len(),
            out@.len() == v,
            forall|w: int| 0 <= w < v ==> (#[trigger] out@[w]).reached as nat == reach_count(g.edges@, w as nat, g.labels@.len())
                && out@[w].total_distance as nat == distance_sum(g.edges@, w as nat, g.labels@.len()),
        decreases g.labels@.len() - v,
    {
        let c = closeness_of(g, v);
        out.push(c);
        v = v + 1;
    }
    out
}

} // verus!
