//! Compiles, for every node, the order in which the nodes that depend on it
//! are recomputed when its value changes.
use vstd::prelude::*;
use crate::dag::{deps_wf, distances, is_update_order, lemma_rounds_bounds, precedes, relax, rounds, settled, sorted_by_rank, step};

verus! {

pub open spec fn deps_view(deps: &Vec<Vec<usize>>) -> Seq<Seq<usize>> {
    deps@.map_values(|ds: Vec<usize>| ds@)
}

/// A rank held as `Option`: `None` is `-1`, unreached.
pub open spec fn rank_of(o: Option<usize>) -> int {
    match o {
        Some(x) => x as int,
        None => -1,
    }
}

pub open spec fn ranks_view(d: Seq<Option<usize>>) -> Seq<int> {
    d.map_values(|o: Option<usize>| rank_of(o))
}

/// One relaxation round, `step`, over ranks that are at most `k`.
fn relax_round(deps: &Vec<Vec<usize>>, d: &Vec<Option<usize>>, Ghost(k): Ghost<nat>) -> (nd: Vec<
    Option<usize>,
>)
    requires
        deps_wf(deps_view(deps)),
        d.len() == deps.len(),
        k < usize::MAX,
        forall|j: int| 0 <= j < d.len() ==> #[trigger] rank_of(d@[j]) <= k,
    ensures
        nd.len() == d.len(),
        ranks_view(nd@) == step(deps_view(deps), ranks_view(d@)),
{
    let ghost dv = deps_view(deps);
    let ghost rd = ranks_view(d@);
    let n = d.len();
    let mut nd: Vec<Option<usize>> = Vec::new();
    let mut v: usize = 0;
    while v < n
        invariant
            n == d.len() == deps.len(),
            dv == deps_view(deps),
            rd == ranks_view(d@),
            deps_wf(dv),
            k < usize::MAX,
            forall|j: int| 0 <= j < d.len() ==> #[trigger] rank_of(d@[j]) <= k,
            v <= n,
            nd.len() == v,
            forall|w: int| 0 <= w < v ==> rank_of(#[trigger] nd@[w]) == relax(rd, dv[w], rd[w]),
        decreases n - v,
    {
        let ds = &deps[v];
        assert(ds@ == dv[v as int]);
        let mut cur: Option<usize> = d[v];
        let mut t: usize = 0;
        while t < ds.len()
            invariant
                n == d.len() == deps.len(),
                dv == deps_view(deps),
                rd == ranks_view(d@),
                deps_wf(dv),
                k < usize::MAX,
                forall|j: int| 0 <= j < d.len() ==> #[trigger] rank_of(d@[j]) <= k,
                v < n,
                ds@ == dv[v as int],
                t <= ds.len(),
                rank_of(cur) == relax(rd, ds@.subrange(0, t as int), rd[v as int]),
            decreases ds.len() - t,
        {
            let u = ds[t];
            assert(dv[v as int][t as int] == u);
            assert((u as int) < n);
            assert(rank_of(d@[u as int]) <= k);
            match d[u] {
                Some(x) => {
                    match cur {
                        Some(c) => {
                            if x + 1 > c {
                                cur = Some(x + 1);
                            }
                        },
                        None => {
                            cur = Some(x + 1);
                        },
                    }
                },
                None => {},
            }
            assert(ds@.subrange(0, t + 1).drop_last() =~= ds@.subrange(0, t as int));
            t += 1;
        }
        assert(ds@.subrange(0, ds@.len() as int) =~= ds@);
        nd.push(cur);
        v += 1;
    }
    assert(ranks_view(nd@) =~= step(dv, rd));
    nd
}

fn same_ranks(a: &Vec<Option<usize>>, b: &Vec<Option<usize>>) -> (r: bool)
    requires
        a.len() == b.len(),
    ensures
        r == (ranks_view(a@) == ranks_view(b@)),
{
    let mut j: usize = 0;
    while j < a.len()
        invariant
            a.len() == b.len(),
            j <= a.len(),
            forall|i: int| 0 <= i < j ==> rank_of(#[trigger] a@[i]) == rank_of(b@[i]),
        decreases a.len() - j,
    {
        let same = match (a[j], b[j]) {
            (Some(x), Some(y)) => x == y,
            (None, None) => true,
            _ => false,
        };
        if !same {
            assert(ranks_view(a@)[j as int] != ranks_view(b@)[j as int]);
            return false;
        }
        j += 1;
    }
    assert(ranks_view(a@) =~= ranks_view(b@));
    true
}

/// The nodes of positive rank, by rank and then by id.
fn order_by_rank(d: &Vec<Option<usize>>) -> (o: Vec<usize>)
    requires
        forall|j: int| 0 <= j < d.len() ==> #[trigger] rank_of(d@[j]) < d.len(),
    ensures
        is_update_order(ranks_view(d@), o@),
{
    let ghost rd = ranks_view(d@);
    let n = d.len();
    let mut o: Vec<usize> = Vec::new();
    let mut level: usize = 1;
    while level < n
        invariant
            n == d.len(),
            rd == ranks_view(d@),
            1 <= level <= n || n == 0,
            forall|k: int| 0 <= k < o.len() ==> (#[trigger] o@[k] as int) < n && 1 <= rd[o@[k] as int] < level,
            forall|x: int| 0 <= x < n && 1 <= rd[x] < level ==> #[trigger] o@.contains(x as usize),
            sorted_by_rank(rd, o@),
        decreases n - level,
    {
        let mut j: usize = 0;
        while j < n
            invariant
                n == d.len(),
                rd == ranks_view(d@),
                1 <= level < n,
                j <= n,
                forall|k: int|
                    0 <= k < o.len() ==> (#[trigger] o@[k] as int) < n && 1 <= rd[o@[k] as int] && (rd[o@[k] as int]
                        < level || (rd[o@[k] as int] == level && o@[k] < j)),
                forall|x: int|
                    0 <= x < n && 1 <= rd[x] && (rd[x] < level || (rd[x] == level && x < j))
                        ==> #[trigger] o@.contains(x as usize),
                sorted_by_rank(rd, o@),
            decreases n - j,
        {
            assert(rd[j as int] == rank_of(d@[j as int]));
            if d[j] == Some(level) {
                let ghost old_o = o@;
                o.push(j);
                assert forall|x: int|
                    0 <= x < n && 1 <= rd[x] && (rd[x] < level || (rd[x] == level && x < j + 1))
                        implies #[trigger] o@.contains(x as usize) by {
                    if x == j {
                        assert(o@[old_o.len() as int] == j);
                    } else {
                        assert(old_o.contains(x as usize));
                        let k = choose|k: int| 0 <= k < old_o.len() && old_o[k] == x as usize;
                        assert(o@[k] == x as usize);
                    }
                }
                assert forall|a: int, b: int| 0 <= a < b < o@.len() implies precedes(rd, o@[a] as int, o@[b] as int) by {
                    if b < old_o.len() {
                        assert(old_o[a] == o@[a] && old_o[b] == o@[b]);
                    } else {
                        assert(old_o[a] == o@[a]);
                    }
                }
            } else {
                proof {
                    if rd[j as int] == level {
                        match d@[j as int] {
                            Some(x) => { assert(x == level); },
                            None => {},
                        }
                    }
                }
            }
            j += 1;
        }
        level += 1;
    }
    proof {
        assert forall|x: int| 0 <= x < rd.len() && rd[x] > 0 implies #[trigger] o@.contains(x as usize) by {
            assert(rank_of(d@[x]) < d.len());
        }
    }
    o
}

/// The update order from `src`, or `None` when the relaxation from `src`
/// does not settle.
fn compile_from(deps: &Vec<Vec<usize>>, src: usize) -> (r: Option<Vec<usize>>)
    requires
        deps_wf(deps_view(deps)),
        src < deps.len(),
    ensures
        r is Some <==> settled(deps_view(deps), src as int),
        r matches Some(o) ==> is_update_order(distances(deps_view(deps), src as int), o@),
{
    let ghost dv = deps_view(deps);
    let n = deps.len();
    let mut d: Vec<Option<usize>> = Vec::new();
    let mut j: usize = 0;
    while j < n
        invariant
            n == deps.len(),
            j <= n,
            d.len() == j,
            forall|i: int| 0 <= i < j ==> rank_of(#[trigger] d@[i]) == if i == src { 0int } else { -1int },
        decreases n - j,
    {
        if j == src {
            d.push(Some(0));
        } else {
            d.push(None);
        }
        j += 1;
    }
    assert(ranks_view(d@) =~= rounds(dv, src as int, 0));
    let mut k: usize = 0;
    while k + 1 < n
        invariant
            n == deps.len(),
            dv == deps_view(deps),
            deps_wf(dv),
            src < n,
            d.len() == n,
            k < n,
            ranks_view(d@) == rounds(dv, src as int, k as nat),
        decreases n - k,
    {
        proof {
            lemma_rounds_bounds(dv, src as int, k as nat);
            assert forall|j: int| 0 <= j < d.len() implies #[trigger] rank_of(d@[j]) <= k by {
                assert(rank_of(d@[j]) == ranks_view(d@)[j]);
            }
        }
        d = relax_round(deps, &d, Ghost(k as nat));
        k += 1;
    }
    proof {
        lemma_rounds_bounds(dv, src as int, k as nat);
        assert forall|j: int| 0 <= j < d.len() implies #[trigger] rank_of(d@[j]) <= k by {
            assert(rank_of(d@[j]) == ranks_view(d@)[j]);
        }
    }
    let next = relax_round(deps, &d, Ghost(k as nat));
    if !same_ranks(&d, &next) {
        return None;
    }
    proof {
        assert forall|j: int| 0 <= j < d.len() implies #[trigger] rank_of(d@[j]) < d.len() by {
            assert(rank_of(d@[j]) == ranks_view(d@)[j]);
        }
    }
    Some(order_by_rank(&d))
}

/// Compiles the update order of every node, or names a node from which the
/// relaxation does not settle (a cycle is reachable from it).
pub fn compile_update_orders(deps: &Vec<Vec<usize>>) -> (r: Result<Vec<Vec<usize>>, usize>)
    requires
        deps_wf(deps_view(deps)),
    ensures
        match r {
            Ok(orders) => orders.len() == deps.len() && (forall|i: int|
                0 <= i < deps.len() ==> #[trigger] settled(deps_view(deps), i)) && forall|i: int|
                0 <= i < deps.len() ==> is_update_order(
                    distances(deps_view(deps), i),
                    (#[trigger] orders@[i])@,
                ),
            Err(i) => i < deps.len() && !settled(deps_view(deps), i as int),
        },
{
    let n = deps.len();
    let mut orders: Vec<Vec<usize>> = Vec::new();
    let mut i: usize = 0;
    while i < n
        invariant
            n == deps.len(),
            deps_wf(deps_view(deps)),
            i <= n,
            orders.len() == i,
            forall|s: int| 0 <= s < i ==> #[trigger] settled(deps_view(deps), s),
            forall|s: int|
                0 <= s < i ==> is_update_order(
                    distances(deps_view(deps), s),
                    (#[trigger] orders@[s])@,
                ),
        decreases n - i,
    {
        let o = match compile_from(deps, i) {
            Some(o) => o,
            None => return Err(i),
        };
        let ghost before = orders@;
        orders.push(o);
        assert forall|s: int| 0 <= s < i + 1 implies is_update_order(
            distances(deps_view(deps), s),
            (#[trigger] orders@[s])@,
        ) by {
            if s < i {
                assert(orders@[s] == before[s]);
            }
        }
        i += 1;
    }
    Ok(orders)
}

} // verus!
