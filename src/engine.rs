//! The runtime graph: node values, the name index, the compute functions and
//! the compiled update orders, with `update_value` as its one mutator.
use vstd::prelude::*;
use crate::compiler::deps_view;
use crate::dag::{
    deps_wf, distances, is_update_order, lemma_settled_reach, lemma_update_order_unique, precedes, has_edge,
    lemma_settled_edge, reachable, settled,
};

verus! {

/// A failure of a lookup by name at run time.
#[derive(Debug, Clone, PartialEq, Eq)]
pub enum RuntimeError {
    /// `update_value` or `value_of` named no node; nothing was changed.
    NodeNotFound(String),
    /// A compute function asked for a name that no node has.
    InvalidComputeReference(String),
}

pub open spec fn names_view(names: Seq<String>) -> Seq<Seq<char>> {
    names.map_values(|s: String| s@)
}

pub open spec fn names_unique(names: Seq<Seq<char>>) -> bool {
    forall|a: int, b: int| 0 <= a < b < names.len() ==> names[a] != names[b]
}

/// The position of the node called `s`.
pub open spec fn index_of(names: Seq<Seq<char>>, s: Seq<char>) -> int {
    choose|k: int| 0 <= k < names.len() && names[k] == s
}

pub proof fn lemma_index_of(names: Seq<Seq<char>>, k: int)
    requires
        names_unique(names),
        0 <= k < names.len(),
    ensures
        index_of(names, names[k]) == k,
{
    let j = index_of(names, names[k]);
    if j < k {
        assert(names[j] != names[k]);
    }
    if k < j {
        assert(names[k] != names[j]);
    }
}

/// The first position that holds `name`, if any.
pub(crate) fn find_name(names: &Vec<String>, name: &str) -> (r: Option<usize>)
    ensures
        match r {
            Some(i) => i < names.len() && names@[i as int]@ == name@ && forall|k: int|
                0 <= k < i ==> names@[k]@ != name@,
            None => forall|k: int| 0 <= k < names.len() ==> names@[k]@ != name@,
        },
        r is None <==> !names_view(names@).contains(name@),
{
    let key = name.to_owned();
    let mut k: usize = 0;
    while k < names.len()
        invariant
            key@ == name@,
            k <= names.len(),
            forall|j: int| 0 <= j < k ==> names@[j]@ != name@,
        decreases names.len() - k,
    {
        if names[k] == key {
            assert(names_view(names@)[k as int] == name@);
            return Some(k);
        }
        k += 1;
    }
    proof {
        if names_view(names@).contains(name@) {
            let j = choose|j: int| 0 <= j < names.len() && names_view(names@)[j] == name@;
            assert(names@[j]@ == name@);
        }
    }
    None
}

/// The bijection between node names and node ids.
pub struct NameIndex {
    names: Vec<String>,
}

impl NameIndex {
    pub closed spec fn names(&self) -> Seq<Seq<char>> {
        names_view(self.names@)
    }

    pub(crate) fn from_names(names: Vec<String>) -> (r: NameIndex)
        ensures
            r.names() == names_view(names@),
    {
        NameIndex { names }
    }

    pub fn len(&self) -> (r: usize)
        ensures
            r == self.names().len(),
    {
        self.names.len()
    }

    /// The id of the node called `name`.
    pub fn id_of(&self, name: &str) -> (r: Result<usize, RuntimeError>)
        ensures
            self.names().contains(name@) <==> r is Ok,
            r matches Ok(i) ==> i < self.names().len() && self.names()[i as int] == name@ && forall|k: int|
                0 <= k < i ==> self.names()[k] != name@,
            r matches Err(e) ==> (e matches RuntimeError::InvalidComputeReference(s) && s@ == name@),
    {
        match find_name(&self.names, name) {
            Some(i) => {
                assert(self.names()[i as int] == name@);
                Ok(i)
            },
            None => {
                Err(RuntimeError::InvalidComputeReference(name.to_owned()))
            },
        }
    }

    /// The name of node `id`.
    pub fn name(&self, id: usize) -> (r: &String)
        requires
            id < self.names().len(),
        ensures
            r@ == self.names()[id as int],
    {
        &self.names[id]
    }
}

/// How a derived node gets its value: from the current values of all nodes,
/// with `index` to resolve names to ids.  It returns the node's new value.
pub trait ComputeFn<V> {
    /// What `compute` returns, given the values and the node names.  An
    /// implementation that Verus checks defines it; one that it does not see
    /// keeps this default, of which nothing is known.
    closed spec fn spec_compute(&self, values: Seq<V>, names: Seq<Seq<char>>) -> V {
        arbitrary()
    }

    fn compute(&self, values: &Vec<V>, index: &NameIndex) -> (r: V)
        ensures
            r == self.spec_compute(values@, index.names()),
    ;
}

/// One recomputed node, with its value before and after, in replay order.
#[derive(Debug, Clone, Copy, PartialEq)]
pub struct Change<V> {
    pub node: usize,
    pub before: V,
    pub after: V,
}

/// A built computation graph.  Node ids are positions `0..n`, in the order
/// in which the nodes were specified.
pub struct ExpressionTree<V, F> {
    index: NameIndex,
    values: Vec<V>,
    update_fns: Vec<Option<F>>,
    deps: Vec<Vec<usize>>,
    update_paths: Vec<Vec<usize>>,
}

impl<V, F> ExpressionTree<V, F> {
    pub closed spec fn node_names(&self) -> Seq<Seq<char>> {
        self.index.names()
    }

    pub closed spec fn values(&self) -> Seq<V> {
        self.values@
    }

    pub closed spec fn compute_fns(&self) -> Seq<Option<F>> {
        self.update_fns@
    }

    /// `dependencies()[v]` holds the ids that node `v` reads.
    pub closed spec fn dependencies(&self) -> Seq<Seq<usize>> {
        deps_view(&self.deps)
    }

    /// The nodes recomputed, in this order, when node `i` changes.
    pub closed spec fn update_order(&self, i: int) -> Seq<usize> {
        self.update_paths@[i]@
    }

    /// Everything but the values is the same in `self` and `other`.
    pub open spec fn same_graph(&self, other: &Self) -> bool {
        &&& self.node_names() == other.node_names()
        &&& self.compute_fns() == other.compute_fns()
        &&& self.dependencies() == other.dependencies()
        &&& forall|x: int| #[trigger] self.update_order(x) == other.update_order(x)
    }

    pub closed spec fn wf(&self) -> bool {
        let n = self.values@.len();
        &&& self.node_names().len() == n
        &&& names_unique(self.node_names())
        &&& self.update_fns@.len() == n
        &&& self.deps@.len() == n
        &&& self.update_paths@.len() == n
        &&& deps_wf(self.dependencies())
        &&& forall|i: int| 0 <= i < n ==> #[trigger] settled(self.dependencies(), i)
        &&& forall|i: int| 0 <= i < n ==> is_update_order(distances(self.dependencies(), i), #[trigger] self.update_order(i))
    }

    pub(crate) fn assemble(
        index: NameIndex,
        values: Vec<V>,
        update_fns: Vec<Option<F>>,
        deps: Vec<Vec<usize>>,
        update_paths: Vec<Vec<usize>>,
    ) -> (r: Self)
        requires
            index.names().len() == values.len(),
            names_unique(index.names()),
            update_fns.len() == values.len(),
            deps.len() == values.len(),
            update_paths.len() == values.len(),
            deps_wf(deps_view(&deps)),
            forall|i: int| 0 <= i < values.len() ==> #[trigger] settled(deps_view(&deps), i),
            forall|i: int|
                0 <= i < values.len() ==> is_update_order(distances(deps_view(&deps), i), (#[trigger] update_paths@[i])@),
        ensures
            r.wf(),
            r.node_names() == index.names(),
            r.values() == values@,
            r.compute_fns() == update_fns@,
            r.dependencies() == deps_view(&deps),
            forall|i: int| 0 <= i < values.len() ==> #[trigger] r.update_order(i) == update_paths@[i]@,
    {
        let r = ExpressionTree { index, values, update_fns, deps, update_paths };
        assert forall|i: int| 0 <= i < r.values@.len() implies is_update_order(distances(r.dependencies(), i), #[trigger] r.update_order(i)) by {
            assert(is_update_order(distances(deps_view(&r.deps), i), (update_paths@[i])@));
        }
        r
    }

    /// An edge `u -> v` between two nodes of an update order puts `u` first.
    pub proof fn lemma_update_order_topological(&self, i: int, p: int, q: int)
        requires
            self.wf(),
            0 <= i < self.values().len(),
            0 <= p < self.update_order(i).len(),
            0 <= q < self.update_order(i).len(),
            has_edge(self.dependencies(), self.update_order(i)[p] as int, self.update_order(i)[q] as int),
        ensures
            p < q,
    {
        let deps = self.dependencies();
        let o = self.update_order(i);
        let d = distances(deps, i);
        assert(settled(deps, i));
        assert(is_update_order(d, o));
        lemma_settled_edge(deps, i, o[p] as int, o[q] as int);
        if q < p {
            assert(precedes(d, o[q] as int, o[p] as int));
        }
        if p == q {
            lemma_settled_edge(deps, i, o[p] as int, o[p] as int);
        }
    }

    /// The update order of `i` holds exactly the nodes reachable from `i`,
    /// each once, and never `i` itself.
    pub proof fn lemma_update_order_complete(&self, i: usize, j: usize)
        requires
            self.wf(),
            i < self.values().len(),
            j < self.values().len(),
        ensures
            self.update_order(i as int).contains(j) <==> reachable(self.dependencies(), i as int, j as int),
            !self.update_order(i as int).contains(i),
            self.update_order(i as int).no_duplicates(),
            forall|k: int|
                0 <= k < self.update_order(i as int).len() ==> (#[trigger] self.update_order(i as int)[k] as int)
                    < self.values().len(),
    {
        let deps = self.dependencies();
        let o = self.update_order(i as int);
        let d = distances(deps, i as int);
        assert(settled(deps, i as int));
        assert(is_update_order(d, o));
        lemma_settled_reach(deps, i as int, j as int);
        assert(d.len() == self.values().len());
        if o.contains(j) {
            let k = choose|k: int| 0 <= k < o.len() && o[k] == j;
            assert(d[o[k] as int] > 0);
        }
        if reachable(deps, i as int, j as int) {
            assert(d[j as int] > 0);
            assert(o.contains((j as int) as usize));
        }
        if o.contains(i) {
            let k = choose|k: int| 0 <= k < o.len() && o[k] == i;
            assert(d[o[k] as int] > 0);
        }
        assert forall|a: int, b: int| 0 <= a < o.len() && 0 <= b < o.len() && a != b implies o[a] != o[b] by {
            if a < b {
                assert(precedes(d, o[a] as int, o[b] as int));
            } else {
                assert(precedes(d, o[b] as int, o[a] as int));
            }
        }
    }

    /// The sizes of a graph agree, its dependency ids are node ids, and the
    /// update order of `i` lists the nodes of positive rank from `i` (the
    /// length of their longest walk from `i`), by rank and then by id.
    pub proof fn lemma_update_order_ranked(&self, i: int)
        requires
            self.wf(),
            0 <= i < self.values().len(),
        ensures
            self.node_names().len() == self.values().len(),
            self.compute_fns().len() == self.values().len(),
            self.dependencies().len() == self.values().len(),
            names_unique(self.node_names()),
            deps_wf(self.dependencies()),
            settled(self.dependencies(), i),
            distances(self.dependencies(), i).len() == self.values().len(),
            is_update_order(distances(self.dependencies(), i), self.update_order(i)),
    {
        assert(settled(self.dependencies(), i));
        assert(is_update_order(distances(self.dependencies(), i), self.update_order(i)));
        lemma_settled_reach(self.dependencies(), i, i);
    }

    /// No node depends on itself, directly or transitively.
    pub proof fn lemma_acyclic(&self, x: int)
        requires
            self.wf(),
            0 <= x < self.values().len(),
        ensures
            !reachable(self.dependencies(), x, x),
    {
        assert(settled(self.dependencies(), x));
        lemma_settled_reach(self.dependencies(), x, x);
    }

    /// The update orders depend on the dependencies alone: building the same
    /// specifications twice gives the same update orders.
    pub proof fn lemma_update_orders_determined(&self, other: &Self)
        requires
            self.wf(),
            other.wf(),
            self.dependencies() == other.dependencies(),
        ensures
            forall|i: int| 0 <= i < self.values().len() ==> #[trigger] self.update_order(i) == other.update_order(i),
    {
        assert forall|i: int| 0 <= i < self.values().len() implies #[trigger] self.update_order(i) == other.update_order(i) by {
            let d = distances(self.dependencies(), i);
            assert(is_update_order(d, self.update_order(i)));
            assert(is_update_order(d, other.update_order(i)));
            lemma_update_order_unique(d, self.update_order(i), other.update_order(i));
        }
    }
}

impl<V: Copy, F: ComputeFn<V>> ExpressionTree<V, F> {
    /// The values once node `i` was set to `value` and the first `k` nodes of
    /// its update order were recomputed, each by its compute function on the
    /// values so far (a node without one keeps its value).
    pub open spec fn replay(&self, i: int, value: V, k: nat) -> Seq<V>
        decreases k,
    {
        if k == 0 {
            self.values().update(i, value)
        } else {
            let prev = self.replay(i, value, (k - 1) as nat);
            let j = self.update_order(i)[k - 1] as int;
            match self.compute_fns()[j] {
                Some(f) => prev.update(j, f.spec_compute(prev, self.node_names())),
                None => prev,
            }
        }
    }

    /// `after` is `self` once node `i` was set to `value` and the nodes of its
    /// update order were recomputed in order, as `changes` reports.
    pub open spec fn replayed(&self, after: &Self, i: int, value: V, changes: Seq<Change<V>>) -> bool {
        let path = self.update_order(i);
        &&& after.same_graph(self)
        &&& after.values() == self.replay(i, value, path.len())
        &&& after.values().len() == self.values().len()
        &&& after.values()[i] == value
        &&& forall|j: int|
            0 <= j < self.values().len() && j != i && !path.contains(j as usize) ==> after.values()[j]
                == self.values()[j]
        &&& changes.len() == path.len()
        &&& forall|k: int|
            0 <= k < path.len() ==> (#[trigger] changes[k]).node == path[k] && changes[k].before
                == self.values()[path[k] as int] && changes[k].after == self.replay(i, value, (k + 1) as nat)[path[k] as int]
                && changes[k].after == after.values()[path[k] as int] && (self.compute_fns()[path[k] as int] is None
                ==> changes[k].after == changes[k].before)
    }

    /// The number of nodes.
    pub fn node_count(&self) -> (r: usize)
        requires
            self.wf(),
        ensures
            r == self.values().len(),
    {
        self.values.len()
    }

    /// The name index that compute functions receive.
    pub fn name_index(&self) -> (r: &NameIndex)
        ensures
            r.names() == self.node_names(),
    {
        &self.index
    }

    /// The current value of the node called `name`.
    pub fn value_of(&self, name: &str) -> (r: Result<V, RuntimeError>)
        requires
            self.wf(),
        ensures
            self.node_names().contains(name@) <==> r is Ok,
            r matches Ok(v) ==> v == self.values()[index_of(self.node_names(), name@)],
            r matches Err(e) ==> (e matches RuntimeError::NodeNotFound(s) && s@ == name@),
    {
        match find_name(&self.index.names, name) {
            Some(i) => {
                proof {
                    lemma_index_of(self.node_names(), i as int);
                }
                Ok(self.values[i])
            },
            None => {
                Err(RuntimeError::NodeNotFound(name.to_owned()))
            },
        }
    }

    /// Every node's name and value, by id.
    pub fn snapshot(&self) -> (r: Vec<(String, V)>)
        requires
            self.wf(),
        ensures
            r.len() == self.values().len(),
            forall|k: int| 0 <= k < r.len() ==> (#[trigger] r@[k]).0@ == self.node_names()[k] && r@[k].1 == self.values()[k],
    {
        let mut r: Vec<(String, V)> = Vec::new();
        let mut k: usize = 0;
        while k < self.values.len()
            invariant
                self.wf(),
                k <= self.values.len(),
                r.len() == k,
                forall|m: int| 0 <= m < k ==> (#[trigger] r@[m]).0@ == self.node_names()[m] && r@[m].1 == self.values()[m],
            decreases self.values.len() - k,
        {
            let name = self.index.names[k].clone();
            r.push((name, self.values[k]));
            k += 1;
        }
        r
    }

    /// The names of the nodes recomputed, in order, when `name` changes.
    pub fn update_order_for(&self, name: &str) -> (r: Result<Vec<String>, RuntimeError>)
        requires
            self.wf(),
        ensures
            self.node_names().contains(name@) <==> r is Ok,
            r matches Ok(ns) ==> {
                let path = self.update_order(index_of(self.node_names(), name@));
                &&& ns.len() == path.len()
                &&& forall|k: int| 0 <= k < ns.len() ==> (#[trigger] ns@[k])@ == self.node_names()[path[k] as int]
            },
            r matches Err(e) ==> (e matches RuntimeError::NodeNotFound(s) && s@ == name@),
    {
        let i = match find_name(&self.index.names, name) {
            Some(i) => i,
            None => {
                return Err(RuntimeError::NodeNotFound(name.to_owned()));
            },
        };
        proof {
            lemma_index_of(self.node_names(), i as int);
        }
        let path = &self.update_paths[i];
        proof {
            lemma_settled_reach(self.dependencies(), i as int, i as int);
        }
        assert(path@ == self.update_order(i as int));
        assert(is_update_order(distances(self.dependencies(), i as int), path@));
        let mut ns: Vec<String> = Vec::new();
        let mut k: usize = 0;
        while k < path.len()
            invariant
                self.wf(),
                i < self.values.len(),
                path@ == self.update_order(i as int),
                is_update_order(distances(self.dependencies(), i as int), path@),
                distances(self.dependencies(), i as int).len() == self.values@.len(),
                k <= path.len(),
                ns.len() == k,
                forall|m: int| 0 <= m < k ==> (#[trigger] ns@[m])@ == self.node_names()[path@[m] as int],
            decreases path.len() - k,
        {
            let j = path[k];
            assert((path@[k as int] as int) < self.values@.len());
            ns.push(self.index.names[j].clone());
            k += 1;
        }
        Ok(ns)
    }

    /// Sets the node called `name` to `value`, then recomputes each node of
    /// its update order, in that order, and reports what changed.  When no
    /// node has that name nothing changes.
    pub fn update_value(&mut self, name: &str, value: V) -> (r: Result<Vec<Change<V>>, RuntimeError>)
        requires
            old(self).wf(),
        ensures
            final(self).wf(),
            old(self).node_names().contains(name@) <==> r is Ok,
            r matches Err(e) ==> (e matches RuntimeError::NodeNotFound(s) && s@ == name@) && *final(self) == *old(self),
            r matches Ok(changes) ==> old(self).replayed(
                &*final(self),
                index_of(old(self).node_names(), name@),
                value,
                changes@,
            ),
    {
        let i = match find_name(&self.index.names, name) {
            Some(i) => i,
            None => {
                return Err(RuntimeError::NodeNotFound(name.to_owned()));
            },
        };
        let ghost before = *self;
        proof {
            lemma_index_of(self.node_names(), i as int);
            self.lemma_update_order_complete(i, i);
            lemma_settled_reach(self.dependencies(), i as int, i as int);
        }
        let ghost path = self.update_order(i as int);
        assert(is_update_order(distances(self.dependencies(), i as int), path));
        self.values[i] = value;
        assert(self.values@ == before.replay(i as int, value, 0));
        let n_steps = self.update_paths[i].len();
        let mut changes: Vec<Change<V>> = Vec::new();
        let mut k: usize = 0;
        while k < n_steps
            invariant
                before.wf(),
                i < before.values().len(),
                path == before.update_order(i as int),
                is_update_order(distances(before.dependencies(), i as int), path),
                distances(before.dependencies(), i as int).len() == before.values().len(),
                path.no_duplicates(),
                !path.contains(i as usize),
                n_steps == path.len(),
                self.index == before.index,
                self.update_fns == before.update_fns,
                self.deps == before.deps,
                self.update_paths == before.update_paths,
                self.values@ == before.replay(i as int, value, k as nat),
                self.values@.len() == before.values().len(),
                self.values@[i as int] == value,
                k <= n_steps,
                forall|j: int|
                    0 <= j < self.values@.len() && j != i && !path.subrange(0, k as int).contains(j as usize)
                        ==> self.values@[j] == before.values()[j],
                changes.len() == k,
                forall|m: int|
                    0 <= m < k ==> (#[trigger] changes@[m]).node == path[m] && changes@[m].before
                        == before.values()[path[m] as int] && changes@[m].after == self.values@[path[m] as int]
                        && changes@[m].after == before.replay(i as int, value, (m + 1) as nat)[path[m] as int] && (
                    before.compute_fns()[path[m] as int] is None ==> changes@[m].after == changes@[m].before),
            decreases n_steps - k,
        {
            let j = self.update_paths[i][k];
            assert(j == path[k as int]);
            assert((j as int) < self.values@.len());
            assert(!path.subrange(0, k as int).contains(j)) by {
                if path.subrange(0, k as int).contains(j) {
                    let m = choose|m: int| 0 <= m < k && path.subrange(0, k as int)[m] == j;
                    assert(path[m] == path[k as int]);
                }
            }
            assert(j != i) by {
                assert(path.contains(path[k as int]));
            }
            let old_value = self.values[j];
            let new_value = match &self.update_fns[j] {
                Some(f) => f.compute(&self.values, &self.index),
                None => old_value,
            };
            let ghost mid = self.values@;
            proof {
                if before.compute_fns()[j as int] is None {
                    assert(mid.update(j as int, new_value) =~= mid);
                }
            }
            self.values[j] = new_value;
            assert(self.values@ == before.replay(i as int, value, (k + 1) as nat));
            changes.push(Change { node: j, before: old_value, after: new_value });
            assert forall|m: int| 0 <= m < k implies self.values@[path[m] as int] == mid[path[m] as int] by {
                assert(path[m] != path[k as int]);
            }
            assert forall|x: int|
                0 <= x < self.values@.len() && x != i && !path.subrange(0, k + 1).contains(x as usize)
                    implies self.values@[x] == before.values()[x] by {
                if path.subrange(0, k as int).contains(x as usize) {
                    let m = choose|m: int| 0 <= m < k && path.subrange(0, k as int)[m] == x as usize;
                    assert(path.subrange(0, k + 1)[m] == x as usize);
                }
                if x == j {
                    assert(path.subrange(0, k + 1)[k as int] == j);
                }
            }
            k += 1;
        }
        proof {
            assert(path.subrange(0, n_steps as int) =~= path);
            assert(self.dependencies() == before.dependencies());
            assert forall|x: int| 0 <= x < self.values@.len() implies #[trigger] self.update_order(x) == before.update_order(x) by {}
        }
        Ok(changes)
    }
}

} // verus!
