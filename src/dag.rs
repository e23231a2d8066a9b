//! The dependency graph as a mathematical object, and the ranking of the
//! nodes that a change of one source reaches.
//!
//! `deps[v]` lists the ids that node `v` reads; each entry `u` is an edge
//! `u -> v`.  Every edge weighs `-1`, so the shortest distance from a source
//! is minus the length of the longest walk to a node.  `rounds(deps, src, k)`
//! is the state of a Bellman-Ford relaxation after `k` rounds, counted in
//! edges rather than in negative weights: `-1` where `src` reaches nothing
//! yet, else the longest walk of at most `k` edges found so far.
use vstd::prelude::*;
use vstd::set_lib::{lemma_int_range, lemma_len_subset, set_int_range};

verus! {

/// Every dependency id names a node of the graph.
pub open spec fn deps_wf(deps: Seq<Seq<usize>>) -> bool {
    forall|v: int, t: int|
        0 <= v < deps.len() && 0 <= t < deps[v].len() ==> (#[trigger] deps[v][t] as int) < deps.len()
}

/// `u -> v` is an edge: `v` reads `u`.
pub open spec fn has_edge(deps: Seq<Seq<usize>>, u: int, v: int) -> bool {
    0 <= v < deps.len() && exists|t: int| 0 <= t < deps[v].len() && deps[v][t] as int == u
}

/// `p` follows edges from its first node to its last.
pub open spec fn is_walk(deps: Seq<Seq<usize>>, p: Seq<int>) -> bool {
    p.len() >= 1 && forall|k: int| 0 <= k < p.len() - 1 ==> #[trigger] has_edge(deps, p[k], p[k + 1])
}

/// There is a walk of exactly `len` edges from `i` to `j`.
pub open spec fn reaches(deps: Seq<Seq<usize>>, i: int, j: int, len: nat) -> bool {
    exists|p: Seq<int>| #[trigger] is_walk(deps, p) && p.len() == len + 1 && p[0] == i && p.last() == j
}

/// `j` depends on `i` transitively, through at least one edge.
pub open spec fn reachable(deps: Seq<Seq<usize>>, i: int, j: int) -> bool {
    exists|len: nat| len >= 1 && #[trigger] reaches(deps, i, j, len)
}

/// The best of `cur` and of one more edge out of each reached dependency in `ds`.
pub open spec fn relax(d: Seq<int>, ds: Seq<usize>, cur: int) -> int
    decreases ds.len(),
{
    if ds.len() == 0 {
        cur
    } else {
        let prev = relax(d, ds.drop_last(), cur);
        let u = ds.last() as int;
        if 0 <= u < d.len() && d[u] >= 0 && d[u] + 1 > prev {
            d[u] + 1
        } else {
            prev
        }
    }
}

/// One relaxation round over every edge.
pub open spec fn step(deps: Seq<Seq<usize>>, d: Seq<int>) -> Seq<int> {
    Seq::new(d.len(), |v: int| relax(d, deps[v], d[v]))
}

pub open spec fn rounds(deps: Seq<Seq<usize>>, src: int, k: nat) -> Seq<int>
    decreases k,
{
    if k == 0 {
        Seq::new(deps.len(), |j: int| if j == src { 0 } else { -1 })
    } else {
        step(deps, rounds(deps, src, (k - 1) as nat))
    }
}

/// The ranking from `src` after one round fewer than there are nodes.
pub open spec fn distances(deps: Seq<Seq<usize>>, src: int) -> Seq<int> {
    rounds(deps, src, (deps.len() - 1) as nat)
}

/// One more round changes nothing: no cycle is reachable from `src`.
pub open spec fn settled(deps: Seq<Seq<usize>>, src: int) -> bool {
    step(deps, distances(deps, src)) == distances(deps, src)
}

/// `a` comes before `b`: a smaller rank, or the same rank and a smaller id.
pub open spec fn precedes(d: Seq<int>, a: int, b: int) -> bool {
    d[a] < d[b] || (d[a] == d[b] && a < b)
}

/// `o` is strictly increasing in the order `precedes`.
pub open spec fn sorted_by_rank(d: Seq<int>, o: Seq<usize>) -> bool {
    forall|a: int, b: int| #![trigger o[a], o[b]] 0 <= a < b < o.len() ==> precedes(d, o[a] as int, o[b] as int)
}

/// `o` lists the nodes of positive rank in `d`, each once, by rank and then by id.
pub open spec fn is_update_order(d: Seq<int>, o: Seq<usize>) -> bool {
    &&& forall|k: int| 0 <= k < o.len() ==> (#[trigger] o[k] as int) < d.len() && d[o[k] as int] > 0
    &&& forall|j: int| 0 <= j < d.len() && d[j] > 0 ==> #[trigger] o.contains(j as usize)
    &&& sorted_by_rank(d, o)
}

pub proof fn lemma_relax_bounds(d: Seq<int>, ds: Seq<usize>, cur: int)
    ensures
        relax(d, ds, cur) >= cur,
        forall|t: int|
            0 <= t < ds.len() && (ds[t] as int) < d.len() && d[ds[t] as int] >= 0 ==> relax(d, ds, cur)
                >= d[#[trigger] ds[t] as int] + 1,
        relax(d, ds, cur) == cur || exists|t: int|
            0 <= t < ds.len() && (ds[t] as int) < d.len() && d[ds[t] as int] >= 0 && relax(d, ds, cur)
                == d[#[trigger] ds[t] as int] + 1,
    decreases ds.len(),
{
    if ds.len() > 0 {
        lemma_relax_bounds(d, ds.drop_last(), cur);
        assert forall|t: int| 0 <= t < ds.len() - 1 implies ds.drop_last()[t] == ds[t] by {}
        let prev = relax(d, ds.drop_last(), cur);
        if prev != cur && relax(d, ds, cur) == prev {
            let t = choose|t: int|
                0 <= t < ds.drop_last().len() && (ds.drop_last()[t] as int) < d.len() && d[ds.drop_last()[t] as int]
                    >= 0 && prev == d[#[trigger] ds.drop_last()[t] as int] + 1;
            assert(ds[t] == ds.drop_last()[t]);
        }
        if relax(d, ds, cur) != prev {
            assert(ds[ds.len() - 1] == ds.last());
        }
    }
}

proof fn lemma_extend(deps: Seq<Seq<usize>>, i: int, u: int, v: int, len: nat)
    requires
        reaches(deps, i, u, len),
        has_edge(deps, u, v),
    ensures
        reaches(deps, i, v, len + 1),
{
    let p = choose|p: Seq<int>| #[trigger] is_walk(deps, p) && p.len() == len + 1 && p[0] == i && p.last() == u;
    let q = p.push(v);
    assert forall|k: int| 0 <= k < q.len() - 1 implies #[trigger] has_edge(deps, q[k], q[k + 1]) by {
        if k < p.len() - 1 {
            assert(q[k] == p[k] && q[k + 1] == p[k + 1]);
            assert(has_edge(deps, p[k], p[k + 1]));
        }
    }
    assert(is_walk(deps, q));
}

/// Each round keeps every rank within `-1 ..= k`, and a rank `r >= 0` is
/// the length of a walk from `src`.
pub proof fn lemma_rounds_bounds(deps: Seq<Seq<usize>>, src: int, k: nat)
    requires
        deps_wf(deps),
        0 <= src < deps.len(),
    ensures
        rounds(deps, src, k).len() == deps.len(),
        rounds(deps, src, k)[src] >= 0,
        forall|j: int|
            0 <= j < deps.len() ==> -1 <= #[trigger] rounds(deps, src, k)[j] <= k && (rounds(deps, src, k)[j]
                >= 0 ==> reaches(deps, src, j, rounds(deps, src, k)[j] as nat)),
    decreases k,
{
    if k == 0 {
        let p = seq![src];
        assert(is_walk(deps, p));
        assert(reaches(deps, src, src, 0));
    } else {
        lemma_rounds_bounds(deps, src, (k - 1) as nat);
        let prev = rounds(deps, src, (k - 1) as nat);
        let cur = rounds(deps, src, k);
        assert forall|j: int| 0 <= j < deps.len() implies -1 <= #[trigger] cur[j] <= k && (cur[j] >= 0 ==> reaches(
            deps,
            src,
            j,
            cur[j] as nat,
        )) by {
            lemma_relax_bounds(prev, deps[j], prev[j]);
            assert(cur[j] == relax(prev, deps[j], prev[j]));
            if cur[j] != prev[j] {
                let t = choose|t: int|
                    0 <= t < deps[j].len() && (deps[j][t] as int) < prev.len() && prev[deps[j][t] as int] >= 0
                        && relax(prev, deps[j], prev[j]) == prev[#[trigger] deps[j][t] as int] + 1;
                let u = deps[j][t] as int;
                assert(has_edge(deps, u, j));
                lemma_extend(deps, src, u, j, prev[u] as nat);
            }
        }
        lemma_relax_bounds(prev, deps[src], prev[src]);
    }
}

/// Once settled, one edge out of a reached node raises the rank by at least one.
pub proof fn lemma_settled_edge(deps: Seq<Seq<usize>>, src: int, u: int, v: int)
    requires
        deps_wf(deps),
        0 <= src < deps.len(),
        settled(deps, src),
        has_edge(deps, u, v),
        distances(deps, src)[u] >= 0,
    ensures
        distances(deps, src)[v] >= distances(deps, src)[u] + 1,
{
    let d = distances(deps, src);
    lemma_rounds_bounds(deps, src, (deps.len() - 1) as nat);
    let t = choose|t: int| 0 <= t < deps[v].len() && deps[v][t] as int == u;
    lemma_relax_bounds(d, deps[v], d[v]);
    assert(step(deps, d)[v] == relax(d, deps[v], d[v]));
}

/// Once settled, the rank grows by at least one along each edge of a walk.
pub proof fn lemma_settled_walk(deps: Seq<Seq<usize>>, src: int, p: Seq<int>, k: int)
    requires
        deps_wf(deps),
        0 <= src < deps.len(),
        settled(deps, src),
        is_walk(deps, p),
        0 <= k < p.len(),
        0 <= p[0] < deps.len(),
        distances(deps, src)[p[0]] >= 0,
    ensures
        distances(deps, src)[p[k]] >= distances(deps, src)[p[0]] + k,
    decreases k,
{
    if k > 0 {
        lemma_settled_walk(deps, src, p, k - 1);
        let j = k - 1;
        assert(has_edge(deps, p[j], p[j + 1]));
        lemma_settled_edge(deps, src, p[j], p[j + 1]);
    }
}

/// Settled from `src`: a node has positive rank exactly when it is
/// reachable from `src`, and `src` does not reach itself.
pub proof fn lemma_settled_reach(deps: Seq<Seq<usize>>, src: int, j: int)
    requires
        deps_wf(deps),
        0 <= src < deps.len(),
        0 <= j < deps.len(),
        settled(deps, src),
    ensures
        distances(deps, src).len() == deps.len(),
        distances(deps, src)[j] > 0 <==> reachable(deps, src, j),
        !reachable(deps, src, src),
        distances(deps, src)[src] == 0,
{
    let d = distances(deps, src);
    lemma_rounds_bounds(deps, src, (deps.len() - 1) as nat);
    assert forall|x: int, len: nat| 0 <= x < deps.len() && len >= 1 && #[trigger] reaches(deps, src, x, len) implies d[x]
        >= d[src] + len by {
        let p = choose|p: Seq<int>| #[trigger] is_walk(deps, p) && p.len() == len + 1 && p[0] == src && p.last() == x;
        lemma_settled_walk(deps, src, p, len as int);
    }
    if reachable(deps, src, src) {
        let len = choose|len: nat| len >= 1 && #[trigger] reaches(deps, src, src, len);
        assert(d[src] >= d[src] + len);
    }
    if d[src] > 0 {
        assert(reaches(deps, src, src, d[src] as nat));
    }
    if d[j] > 0 {
        assert(reaches(deps, src, j, d[j] as nat));
    }
    if reachable(deps, src, j) {
        let len = choose|len: nat| len >= 1 && #[trigger] reaches(deps, src, j, len);
        assert(d[j] >= d[src] + len);
    }
}

/// Settled from `src`, the rank of a reached node is the length of the
/// longest walk from `src` to it.
pub proof fn lemma_rank_is_longest_walk(deps: Seq<Seq<usize>>, src: int, j: int, len: nat)
    requires
        deps_wf(deps),
        0 <= src < deps.len(),
        0 <= j < deps.len(),
        settled(deps, src),
    ensures
        distances(deps, src)[j] >= 0 ==> reaches(deps, src, j, distances(deps, src)[j] as nat),
        reaches(deps, src, j, len) ==> len <= distances(deps, src)[j],
{
    let d = distances(deps, src);
    lemma_rounds_bounds(deps, src, (deps.len() - 1) as nat);
    lemma_settled_reach(deps, src, j);
    if reaches(deps, src, j, len) {
        let p = choose|p: Seq<int>| #[trigger] is_walk(deps, p) && p.len() == len + 1 && p[0] == src && p.last() == j;
        lemma_settled_walk(deps, src, p, len as int);
    }
}

/// No node reaches itself through one edge or more.
pub open spec fn acyclic(deps: Seq<Seq<usize>>) -> bool {
    forall|x: int| 0 <= x < deps.len() ==> !#[trigger] reachable(deps, x, x)
}

/// After `k` rounds, a node that a walk of at most `k` edges reaches has at
/// least that walk's length as its rank.
pub proof fn lemma_rounds_complete(deps: Seq<Seq<usize>>, src: int, j: int, len: nat, k: nat)
    requires
        deps_wf(deps),
        0 <= src < deps.len(),
        reaches(deps, src, j, len),
        len <= k,
    ensures
        rounds(deps, src, k)[j] >= len,
    decreases len,
{
    lemma_rounds_bounds(deps, src, k);
    if len > 0 {
        let p = choose|p: Seq<int>| #[trigger] is_walk(deps, p) && p.len() == len + 1 && p[0] == src && p.last() == j;
        let q = p.subrange(0, len as int);
        assert forall|m: int| 0 <= m < q.len() - 1 implies #[trigger] has_edge(deps, q[m], q[m + 1]) by {
            assert(has_edge(deps, p[m], p[m + 1]));
        }
        assert(is_walk(deps, q));
        let u = p[len - 1];
        assert(reaches(deps, src, u, (len - 1) as nat));
        let l1 = (len - 1) as int;
        assert(has_edge(deps, p[l1], p[l1 + 1]));
        assert(p[l1 + 1] == j);
        let t = choose|t: int| 0 <= t < deps[j].len() && deps[j][t] as int == u;
        assert((deps[j][t] as int) < deps.len());
        lemma_rounds_complete(deps, src, u, (len - 1) as nat, (k - 1) as nat);
        let prev = rounds(deps, src, (k - 1) as nat);
        lemma_rounds_bounds(deps, src, (k - 1) as nat);
        lemma_relax_bounds(prev, deps[j], prev[j]);
        assert(rounds(deps, src, k)[j] == relax(prev, deps[j], prev[j]));
    }
}

/// Without cycles, no walk visits more nodes than there are.
pub proof fn lemma_acyclic_walk_bounded(deps: Seq<Seq<usize>>, p: Seq<int>)
    requires
        deps_wf(deps),
        acyclic(deps),
        is_walk(deps, p),
        0 <= p[0] < deps.len(),
    ensures
        p.len() <= deps.len(),
{
    let n = deps.len() as int;
    if p.len() > n {
        assert forall|k: int| 0 <= k < p.len() implies 0 <= #[trigger] p[k] < n by {
            if k > 0 {
                let m = k - 1;
                assert(has_edge(deps, p[m], p[m + 1]));
            }
        }
        assert(p.to_set().subset_of(set_int_range(0, n)));
        lemma_int_range(0, n);
        lemma_len_subset(p.to_set(), set_int_range(0, n));
        p.lemma_cardinality_of_set();
        if p.no_duplicates() {
            p.unique_seq_to_set();
        }
        let (a, b) = choose|a: int, b: int| 0 <= a < p.len() && 0 <= b < p.len() && a != b && p[a] == p[b];
        let lo = if a < b { a } else { b };
        let hi = if a < b { b } else { a };
        let q = p.subrange(lo, hi + 1);
        assert forall|m: int| 0 <= m < q.len() - 1 implies #[trigger] has_edge(deps, q[m], q[m + 1]) by {
            assert(has_edge(deps, p[lo + m], p[lo + m + 1]));
        }
        assert(is_walk(deps, q));
        assert(reaches(deps, p[lo], p[lo], (hi - lo) as nat));
        assert(reachable(deps, p[lo], p[lo]));
    }
}

/// Without cycles, the relaxation from every node settles.
pub proof fn lemma_acyclic_settled(deps: Seq<Seq<usize>>, src: int)
    requires
        deps_wf(deps),
        acyclic(deps),
        0 <= src < deps.len(),
    ensures
        settled(deps, src),
{
    let n = deps.len();
    let last = (n - 1) as nat;
    let d = rounds(deps, src, last);
    let next = rounds(deps, src, n as nat);
    lemma_rounds_bounds(deps, src, last);
    lemma_rounds_bounds(deps, src, n as nat);
    assert(next == step(deps, d));
    assert forall|j: int| 0 <= j < n implies #[trigger] next[j] == d[j] by {
        lemma_relax_bounds(d, deps[j], d[j]);
        assert(next[j] == relax(d, deps[j], d[j]));
        if next[j] >= 0 {
            let len = next[j] as nat;
            assert(reaches(deps, src, j, len));
            let p = choose|p: Seq<int>| #[trigger] is_walk(deps, p) && p.len() == len + 1 && p[0] == src && p.last() == j;
            lemma_acyclic_walk_bounded(deps, p);
            lemma_rounds_complete(deps, src, j, len, last);
        }
    }
    assert(next =~= d);
}

/// A node that lies on a cycle is never settled: the relaxation from it
/// does not come to rest.
pub proof fn lemma_cycle_unsettled(deps: Seq<Seq<usize>>, x: int)
    requires
        deps_wf(deps),
        0 <= x < deps.len(),
        reachable(deps, x, x),
    ensures
        !settled(deps, x),
{
    if settled(deps, x) {
        lemma_settled_reach(deps, x, x);
    }
}

/// Two sequences sorted by rank that hold the same nodes are equal.
pub proof fn lemma_sorted_unique(d: Seq<int>, o1: Seq<usize>, o2: Seq<usize>)
    requires
        sorted_by_rank(d, o1),
        sorted_by_rank(d, o2),
        forall|x: usize| o1.contains(x) <==> o2.contains(x),
    ensures
        o1 == o2,
    decreases o1.len() + o2.len(),
{
    if o1.len() == 0 {
        if o2.len() > 0 {
            assert(o2.contains(o2[0]));
        }
        assert(o1 =~= o2);
    } else if o2.len() == 0 {
        assert(o1.contains(o1[0]));
    } else {
        assert(o1.contains(o1[0]));
        assert(o2.contains(o2[0]));
        let k = choose|k: int| 0 <= k < o2.len() && o2[k] == o1[0];
        let m = choose|m: int| 0 <= m < o1.len() && o1[m] == o2[0];
        if k > 0 && m > 0 {
            assert(precedes(d, o2[0] as int, o2[k] as int));
            assert(precedes(d, o1[0] as int, o1[m] as int));
        }
        if k == 0 {
        } else {
            assert(m == 0);
        }
        assert(o1[0] == o2[0]);
        let r1 = o1.drop_first();
        let r2 = o2.drop_first();
        assert forall|a: int, b: int| 0 <= a < b < r1.len() implies #[trigger] precedes(d, r1[a] as int, r1[b] as int) by {
            assert(precedes(d, o1[a + 1] as int, o1[b + 1] as int));
        }
        assert forall|a: int, b: int| 0 <= a < b < r2.len() implies #[trigger] precedes(d, r2[a] as int, r2[b] as int) by {
            assert(precedes(d, o2[a + 1] as int, o2[b + 1] as int));
        }
        assert forall|x: usize| r1.contains(x) implies r2.contains(x) by {
            let a = choose|a: int| 0 <= a < r1.len() && r1[a] == x;
            assert(precedes(d, o1[0] as int, o1[a + 1] as int));
            assert(o1.contains(x));
            let b = choose|b: int| 0 <= b < o2.len() && o2[b] == x;
            assert(b != 0);
            assert(r2[b - 1] == x);
        }
        assert forall|x: usize| r2.contains(x) implies r1.contains(x) by {
            let a = choose|a: int| 0 <= a < r2.len() && r2[a] == x;
            assert(precedes(d, o2[0] as int, o2[a + 1] as int));
            assert(o2.contains(x));
            let b = choose|b: int| 0 <= b < o1.len() && o1[b] == x;
            assert(b != 0);
            assert(r1[b - 1] == x);
        }
        lemma_sorted_unique(d, r1, r2);
        assert(o1 =~= seq![o1[0]] + r1);
        assert(o2 =~= seq![o2[0]] + r2);
    }
}

/// The update order for a ranking is unique.
pub proof fn lemma_update_order_unique(d: Seq<int>, o1: Seq<usize>, o2: Seq<usize>)
    requires
        is_update_order(d, o1),
        is_update_order(d, o2),
    ensures
        o1 == o2,
{
    assert forall|x: usize| o1.contains(x) implies o2.contains(x) by {
        let k = choose|k: int| 0 <= k < o1.len() && o1[k] == x;
        assert((o1[k] as int) < d.len());
        assert(o2.contains(x as int as usize));
    }
    assert forall|x: usize| o2.contains(x) implies o1.contains(x) by {
        let k = choose|k: int| 0 <= k < o2.len() && o2[k] == x;
        assert((o2[k] as int) < d.len());
        assert(o1.contains(x as int as usize));
    }
    lemma_sorted_unique(d, o1, o2);
}

} // verus!
