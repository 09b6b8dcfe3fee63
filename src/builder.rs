use vstd::prelude::*;
use itertools::Itertools;
use crate::graph::{SimGraph, edges_valid, edges_sorted, pair_lt};

verus! {

/// Why a graph could not be built.
#[derive(Debug, PartialEq, Eq)]
pub enum GraphError {
    /// The entity at `index` has `found` features where the first has `expected`.
    FeatureLengthMismatch { index: usize, expected: usize, found: usize },
}

/// The linked pairs `(i, k)` with `i < k < j`, in increasing order of `k`.
pub open spec fn row_pairs(linked: Seq<Seq<bool>>, i: nat, j: nat) -> Seq<(usize, usize)>
    decreases j,
{
    if j <= i + 1 {
        Seq::empty()
    } else {
        let prev = row_pairs(linked, i, (j - 1) as nat);
        if linked[i as int][j - 1] {
            prev.push((i as usize, (j - 1) as usize))
        } else {
            prev
        }
    }
}

/// The linked pairs among `n` nodes whose lower end is below `i`, row by row.
pub open spec fn linked_pairs(linked: Seq<Seq<bool>>, n: nat, i: nat) -> Seq<(usize, usize)>
    decreases i,
{
    if i == 0 {
        Seq::empty()
    } else {
        linked_pairs(linked, n, (i - 1) as nat) + row_pairs(linked, (i - 1) as nat, n)
    }
}

/// The pairs `(i, k)` with `i < k < j`, in increasing order of `k`.
pub open spec fn index_row(i: nat, j: nat) -> Seq<(usize, usize)>
    decreases j,
{
    if j <= i + 1 {
        Seq::empty()
    } else {
        index_row(i, (j - 1) as nat).push((i as usize, (j - 1) as usize))
    }
}

/// The pairs `(a, b)` with `a < b < n` and `a < i`, row by row.
pub open spec fn index_pairs(n: nat, i: nat) -> Seq<(usize, usize)>
    decreases i,
{
    if i == 0 {
        Seq::empty()
    } else {
        index_pairs(n, (i - 1) as nat) + index_row((i - 1) as nat, n)
    }
}

/// The pair is marked in the table.
pub open spec fn is_linked(linked: Seq<Seq<bool>>) -> spec_fn((usize, usize)) -> bool {
    |p: (usize, usize)| linked[p.0 as int][p.1 as int]
}

/// The table that links every pair.
pub open spec fn full_table(n: nat) -> Seq<Seq<bool>> {
    Seq::new(n, |i: int| Seq::new(n, |j: int| true))
}

/// Relies on itertools' `tuple_combinations` on the range `0..n`: every pair
/// `(a, b)` with `a < b < n`, once, ordered by `a` and then by `b`.
#[verifier::external_body]
fn index_pairs_below(n: usize) -> (r: Vec<(usize, usize)>)
    ensures
        r@ == index_pairs(n as nat, n as nat),
{
    (0..n).tuple_combinations().collect()
}

/// All feature vectors have the length of the first.
pub open spec fn lengths_agree(lens: Seq<usize>) -> bool {
    forall|i: int| 0 <= i < lens.len() ==> #[trigger] lens[i] == lens[0]
}

/// `linked` is an `n` by `n` table.
pub open spec fn square(linked: Seq<Seq<bool>>, n: nat) -> bool {
    linked.len() == n && forall|i: int| 0 <= i < n ==> (#[trigger] linked[i]).len() == n
}

proof fn lemma_row_pairs_valid(linked: Seq<Seq<bool>>, n: nat, i: nat, j: nat)
    requires
        square(linked, n),
        i < n,
        j <= n,
        n <= usize::MAX,
    ensures
        edges_valid(row_pairs(linked, i, j), n),
        row_pairs(linked, i, j).len() <= if j > i { j - i - 1 } else { 0 },
    decreases j,
{
    if j > i + 1 {
        lemma_row_pairs_valid(linked, n, i, (j - 1) as nat);
        let prev = row_pairs(linked, i, (j - 1) as nat);
        let cur = row_pairs(linked, i, j);
        assert forall|k: int| 0 <= k < cur.len() implies ((#[trigger] cur[k]).0 < cur[k].1 && (
        cur[k].1 as nat) < n) by {
            if k < prev.len() {
                assert(cur[k] == prev[k]);
            }
        }
    }
}

proof fn lemma_linked_pairs_valid(linked: Seq<Seq<bool>>, n: nat, i: nat)
    requires
        square(linked, n),
        i <= n,
        n <= usize::MAX,
    ensures
        edges_valid(linked_pairs(linked, n, i), n),
        2 * linked_pairs(linked, n, i).len() <= i * (2 * n - i - 1),
    decreases i,
{
    if i > 0 {
        let p = (i - 1) as nat;
        lemma_linked_pairs_valid(linked, n, p);
        lemma_row_pairs_valid(linked, n, p, n);
        let a = linked_pairs(linked, n, p);
        let r = row_pairs(linked, p, n);
        assert forall|k: int| 0 <= k < (a + r).len() implies ((#[trigger] (a + r)[k]).0 < (a
            + r)[k].1 && ((a + r)[k].1 as nat) < n) by {
            if k < a.len() {
                assert((a + r)[k] == a[k]);
            } else {
                assert((a + r)[k] == r[k - a.len()]);
            }
        }
        assert(p * (2 * n - p - 1) + 2 * (n - p - 1) == i * (2 * n - i - 1)) by (nonlinear_arith)
            requires
                i == p + 1,
                i <= n,
        ;
    }
}

proof fn lemma_row_pairs_sorted(linked: Seq<Seq<bool>>, n: nat, i: nat, j: nat)
    requires
        square(linked, n),
        i < n,
        j <= n,
        n <= usize::MAX,
    ensures
        edges_sorted(row_pairs(linked, i, j)),
        forall|k: int| 0 <= k < row_pairs(linked, i, j).len() ==> (#[trigger] row_pairs(linked, i, j)[k]).0 == i && (row_pairs(linked, i, j)[k].1 as nat) < j,
    decreases j,
{
    if j > i + 1 {
        lemma_row_pairs_sorted(linked, n, i, (j - 1) as nat);
        let prev = row_pairs(linked, i, (j - 1) as nat);
        let cur = row_pairs(linked, i, j);
        assert forall|k: int| 0 <= k < cur.len() implies (#[trigger] cur[k]).0 == i && (cur[k].1 as nat) < j by {
            if k < prev.len() {
                assert(cur[k] == prev[k]);
            }
        }
        assert forall|k1: int, k2: int| 0 <= k1 < k2 < cur.len() implies pair_lt(#[trigger] cur[k1], #[trigger] cur[k2]) by {
            assert(cur[k1] == prev[k1]);
            if k2 < prev.len() {
                assert(cur[k2] == prev[k2]);
            }
        }
    }
}

proof fn lemma_linked_pairs_sorted(linked: Seq<Seq<bool>>, n: nat, i: nat)
    requires
        square(linked, n),
        i <= n,
        n <= usize::MAX,
    ensures
        edges_sorted(linked_pairs(linked, n, i)),
        forall|k: int| 0 <= k < linked_pairs(linked, n, i).len() ==> ((#[trigger] linked_pairs(linked, n, i)[k]).0 as nat) < i,
    decreases i,
{
    if i > 0 {
        let p = (i - 1) as nat;
        lemma_linked_pairs_sorted(linked, n, p);
        lemma_row_pairs_sorted(linked, n, p, n);
        let a = linked_pairs(linked, n, p);
        let r = row_pairs(linked, p, n);
        let c = a + r;
        assert forall|k: int| 0 <= k < c.len() implies ((#[trigger] c[k]).0 as nat) < i by {
            if k < a.len() {
                assert(c[k] == a[k]);
            } else {
                assert(c[k] == r[k - a.len()]);
            }
        }
        assert forall|k1: int, k2: int| 0 <= k1 < k2 < c.len() implies pair_lt(#[trigger] c[k1], #[trigger] c[k2]) by {
            if k2 < a.len() {
                assert(c[k1] == a[k1] && c[k2] == a[k2]);
            } else if k1 < a.len() {
                assert(c[k1] == a[k1] && c[k2] == r[k2 - a.len()]);
            } else {
                assert(c[k1] == r[k1 - a.len()] && c[k2] == r[k2 - a.len()]);
            }
        }
    }
}

proof fn lemma_row_pairs_filter(linked: Seq<Seq<bool>>, i: nat, j: nat)
    requires
        j <= usize::MAX,
    ensures
        row_pairs(linked, i, j) == index_row(i, j).filter(is_linked(linked)),
    decreases j,
{
    reveal(Seq::filter);
    if j > i + 1 {
        lemma_row_pairs_filter(linked, i, (j - 1) as nat);
        index_row(i, (j - 1) as nat).lemma_filter_push((i as usize, (j - 1) as usize), is_linked(linked));
    }
}

proof fn lemma_linked_pairs_filter(linked: Seq<Seq<bool>>, n: nat, i: nat)
    requires
        n <= usize::MAX,
    ensures
        linked_pairs(linked, n, i) == index_pairs(n, i).filter(is_linked(linked)),
    decreases i,
{
    reveal(Seq::filter);
    if i > 0 {
        lemma_linked_pairs_filter(linked, n, (i - 1) as nat);
        lemma_row_pairs_filter(linked, (i - 1) as nat, n);
        Seq::filter_distributes_over_add(index_pairs(n, (i - 1) as nat), index_row((i - 1) as nat, n), is_linked(linked));
    }
}

proof fn lemma_filter_all(s: Seq<(usize, usize)>, pred: spec_fn((usize, usize)) -> bool)
    requires
        forall|k: int| 0 <= k < s.len() ==> pred(#[trigger] s[k]),
    ensures
        s.filter(pred) == s,
    decreases s.len(),
{
    reveal(Seq::filter);
    if s.len() > 0 {
        lemma_filter_all(s.drop_last(), pred);
        assert(s.drop_last().push(s.last()) =~= s);
    }
}

/// The pairs listed are those of `n` nodes with both ends in range.
proof fn lemma_index_pairs_valid(n: nat)
    requires
        n <= usize::MAX,
    ensures
        edges_valid(index_pairs(n, n), n),
{
    let full = full_table(n);
    assert(square(full, n));
    lemma_linked_pairs_valid(full, n, n);
    lemma_linked_pairs_filter(full, n, n);
    let ps = index_pairs(n, n);
    // Every listed pair lies inside the table, so filtering keeps all of them;
    // validity of the filtered list is then validity of the list itself.
    assert forall|k: int| 0 <= k < ps.len() implies is_linked(full)(#[trigger] ps[k]) by {
        lemma_index_pairs_bounds(n, n, k);
    }
    lemma_filter_all(ps, is_linked(full));
}

proof fn lemma_index_row_bounds(i: nat, j: nat, k: int)
    requires
        0 <= k < index_row(i, j).len(),
        j <= usize::MAX,
    ensures
        index_row(i, j)[k].0 == i && (index_row(i, j)[k].1 as nat) < j,
    decreases j,
{
    if j > i + 1 && k < index_row(i, (j - 1) as nat).len() {
        lemma_index_row_bounds(i, (j - 1) as nat, k);
    }
}

proof fn lemma_index_pairs_bounds(n: nat, i: nat, k: int)
    requires
        0 <= k < index_pairs(n, i).len(),
        i <= n,
        n <= usize::MAX,
    ensures
        (index_pairs(n, i)[k].0 as nat) < i && (index_pairs(n, i)[k].1 as nat) < n,
    decreases i,
{
    if i > 0 {
        let a = index_pairs(n, (i - 1) as nat);
        if k < a.len() {
            lemma_index_pairs_bounds(n, (i - 1) as nat, k);
        } else {
            lemma_index_row_bounds((i - 1) as nat, n, k - a.len());
        }
    }
}

proof fn lemma_row_pairs_mono(m1: Seq<Seq<bool>>, m2: Seq<Seq<bool>>, n: nat, i: nat, j: nat)
    requires
        square(m1, n),
        square(m2, n),
        forall|a: int, b: int| 0 <= a < n && 0 <= b < n && #[trigger] m1[a][b] ==> m2[a][b],
        i < n,
        j <= n,
    ensures
        row_pairs(m1, i, j).len() <= row_pairs(m2, i, j).len(),
    decreases j,
{
    if j > i + 1 {
        lemma_row_pairs_mono(m1, m2, n, i, (j - 1) as nat);
    }
}

proof fn lemma_linked_pairs_mono(fewer: Seq<Seq<bool>>, more: Seq<Seq<bool>>, n: nat, i: nat)
    requires
        square(fewer, n),
        square(more, n),
        forall|a: int, b: int| 0 <= a < n && 0 <= b < n && #[trigger] fewer[a][b] ==> more[a][b],
        i <= n,
    ensures
        linked_pairs(fewer, n, i).len() <= linked_pairs(more, n, i).len(),
    decreases i,
{
    if i > 0 {
        lemma_linked_pairs_mono(fewer, more, n, (i - 1) as nat);
        lemma_row_pairs_mono(fewer, more, n, (i - 1) as nat, n);
    }
}

/// Linking no more pairs never yields more edges: where every pair that
/// `fewer` links is linked by `more` too, the graph built from `fewer` has at
/// most as many edges. A higher similarity threshold links a subset of the
/// pairs that a lower one links.
pub proof fn lemma_fewer_links_fewer_edges(fewer: Seq<Seq<bool>>, more: Seq<Seq<bool>>, n: nat)
    requires
        square(fewer, n),
        square(more, n),
        forall|a: int, b: int| 0 <= a < n && 0 <= b < n && #[trigger] fewer[a][b] ==> more[a][b],
    ensures
        linked_pairs(fewer, n, n).len() <= linked_pairs(more, n, n).len(),
{
    lemma_linked_pairs_mono(fewer, more, n, n);
}

/// Checks that every feature vector has the length of the first, reporting
/// the first one that does not.
pub fn check_feature_lengths(lens: &Vec<usize>) -> (r: Result<(), GraphError>)
    ensures
        r.is_ok() <==> lengths_agree(lens@),
        r matches Err(GraphError::FeatureLengthMismatch { index, expected, found }) ==> (
        index < lens@.len() && expected == lens@[0] && found == lens@[index as int] && found
            != expected && forall|k: int| 0 <= k < index ==> #[trigger] lens@[k] == lens@[0]),
{
    let mut i: usize = 0;
    while i < lens.len()
        invariant
            i <= lens@.len(),
            forall|k: int| 0 <= k < i ==> #[trigger] lens@[k] == lens@[0],
        decreases lens@.len() - i,
    {
        if lens[i] != lens[0] {
            return Err(GraphError::FeatureLengthMismatch { index: i, expected: lens[0], found: lens[i] });
        }
        i = i + 1;
    }
    Ok(())
}

/// Builds the graph of `labels.len()` entities in which `i` and `j` (`i < j`)
/// are joined exactly when `linked[i][j]` holds, edges listed row by row.
/// `feature_lens[i]` is the length of entity `i`'s feature vector; the graph
/// is refused when these lengths differ.
pub fn build_graph(labels: Vec<String>, feature_lens: &Vec<usize>, linked: &Vec<Vec<bool>>) -> (r:
    Result<SimGraph, GraphError>)
    requires
        feature_lens@.len() == labels@.len(),
        square(linked@.map_values(|row: Vec<bool>| row@), labels@.len()),
    ensures
        r.is_ok() <==> lengths_agree(feature_lens@),
        r matches Ok(g) ==> (g.wf() && g.labels@ == labels@ && g.edges@ == linked_pairs(
            linked@.map_values(|row: Vec<bool>| row@),
            labels@.len(),
            labels@.len(),
        ) && edges_sorted(g.edges@) && 2 * g.edges@.len() <= labels@.len() * (labels@.len() - 1)),
{
    match check_feature_lengths(feature_lens) {
        Err(e) => return Err(e),
        Ok(()) => {},
    }
    let n = labels.len();
    let ghost m = linked@.map_values(|row: Vec<bool>| row@);
    let pairs = index_pairs_below(n);
    proof {
        lemma_index_pairs_valid(n as nat);
    }
    let mut edges: Vec<(usize, usize)> = Vec::new();
    let mut k: usize = 0;
    while k < pairs.len()
        invariant
            n == labels@.len(),
            m == linked@.map_values(|row: Vec<bool>| row@),
            square(m, n as nat),
            pairs@ == index_pairs(n as nat, n as nat),
            edges_valid(pairs@, n as nat),
            k <= pairs@.len(),
            edges@ == pairs@.take(k as int).filter(is_linked(m)),
        decreases pairs@.len() - k,
    {
        let (a, b) = pairs[k];
        assert(pairs@[k as int].0 < pairs@[k as int].1 && (pairs@[k as int].1 as nat) < n);
        assert(m[a as int] == linked@[a as int]@);
        proof {
            assert(pairs@.take(k + 1) == pairs@.take(k as int).push((a, b)));
            pairs@.take(k as int).lemma_filter_push((a, b), is_linked(m));
        }
        if linked[a][b] {
            edges.push((a, b));
        }
        k = k + 1;
    }
    proof {
        assert(pairs@.take(k as int) == pairs@);
        lemma_linked_pairs_filter(m, n as nat, n as nat);
    }
    proof {
        lemma_linked_pairs_valid(m, n as nat, n as nat);
        lemma_linked_pairs_sorted(m, n as nat, n as nat);
        if n > 0 {
            assert(n * (2 * n - n - 1) == n * (n - 1)) by (nonlinear_arith);
        }
    }
    Ok(SimGraph { labels, edges })
}

} // verus!
