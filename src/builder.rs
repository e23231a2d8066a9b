//! Node specifications, and the builder that validates them and compiles
//! the update orders into an `ExpressionTree`.
use vstd::prelude::*;
use crate::compiler::{compile_update_orders, deps_view};
use crate::dag::{acyclic, deps_wf, lemma_acyclic_settled, lemma_cycle_unsettled, reachable, settled};
use crate::engine::{
    find_name, index_of, lemma_index_of, names_unique, names_view, ComputeFn, ExpressionTree, NameIndex,
};

verus! {

/// A failure to build a graph; no graph is produced.
#[derive(Debug, Clone, PartialEq, Eq)]
pub enum BuildError {
    /// Two nodes have this name.
    DuplicateName(String),
    /// A node depends on this name, which no node has.
    UnknownDependency(String),
    /// This node has dependencies but no compute function.
    MissingComputeFunction(String),
    /// This node has no dependencies but a compute function.
    UnexpectedComputeFunction(String),
    /// A dependency cycle is reachable from this node.
    CyclicDependency(String),
}

/// One node: its name, its initial value, the names it reads, and how it is
/// recomputed (`None` for a leaf).
pub struct NodeSpecification<V, F> {
    pub name: String,
    pub initial_value: V,
    pub depends_on: Vec<&'static str>,
    pub update_fn: Option<F>,
}

pub open spec fn spec_names<V, F>(specs: Seq<NodeSpecification<V, F>>) -> Seq<Seq<char>> {
    specs.map_values(|s: NodeSpecification<V, F>| s.name@)
}

pub open spec fn has_duplicate_name(names: Seq<Seq<char>>) -> bool {
    exists|a: int, b: int| 0 <= a < b < names.len() && names[a] == names[b]
}

/// Dependency `t` of node `v` names no node.
pub open spec fn unknown_dependency<V, F>(specs: Seq<NodeSpecification<V, F>>, v: int, t: int) -> bool {
    &&& 0 <= v < specs.len()
    &&& 0 <= t < specs[v].depends_on@.len()
    &&& !spec_names(specs).contains(specs[v].depends_on@[t]@)
}

pub open spec fn has_unknown_dependency<V, F>(specs: Seq<NodeSpecification<V, F>>) -> bool {
    exists|v: int, t: int| unknown_dependency(specs, v, t)
}

pub open spec fn missing_compute<V, F>(s: NodeSpecification<V, F>) -> bool {
    s.depends_on@.len() > 0 && s.update_fn is None
}

pub open spec fn unexpected_compute<V, F>(s: NodeSpecification<V, F>) -> bool {
    s.depends_on@.len() == 0 && s.update_fn is Some
}

pub open spec fn compute_mismatch<V, F>(specs: Seq<NodeSpecification<V, F>>) -> bool {
    exists|v: int| 0 <= v < specs.len() && (missing_compute(#[trigger] specs[v]) || unexpected_compute(specs[v]))
}

/// The dependency lists with names resolved to ids.
pub open spec fn dependency_ids<V, F>(specs: Seq<NodeSpecification<V, F>>) -> Seq<Seq<usize>> {
    Seq::new(
        specs.len(),
        |v: int|
            Seq::new(
                specs[v].depends_on@.len(),
                |t: int| index_of(spec_names(specs), specs[v].depends_on@[t]@) as usize,
            ),
    )
}

/// The specifications make a graph: names unique, dependencies known,
/// compute functions exactly on the nodes with dependencies, no cycle.
pub open spec fn buildable<V, F>(specs: Seq<NodeSpecification<V, F>>) -> bool {
    &&& !has_duplicate_name(spec_names(specs))
    &&& !has_unknown_dependency(specs)
    &&& !compute_mismatch(specs)
    &&& forall|i: int| 0 <= i < specs.len() ==> #[trigger] settled(dependency_ids(specs), i)
}

/// Collects node specifications, in order, for one build.
pub struct MyGraphBuilder<V, F> {
    nodes: Vec<NodeSpecification<V, F>>,
}

impl<V, F> MyGraphBuilder<V, F> {
    pub closed spec fn specs(&self) -> Seq<NodeSpecification<V, F>> {
        self.nodes@
    }
}

impl<V: Copy, F: ComputeFn<V>> MyGraphBuilder<V, F> {
    pub fn new() -> (r: Self)
        ensures
            r.specs() == Seq::<NodeSpecification<V, F>>::empty(),
    {
        MyGraphBuilder { nodes: Vec::new() }
    }

    /// Appends `nodes` after those already added.
    pub fn add_nodes(self, nodes: Vec<NodeSpecification<V, F>>) -> (r: Self)
        ensures
            r.specs() == self.specs() + nodes@,
    {
        let mut b = self;
        let mut more = nodes;
        b.nodes.append(&mut more);
        b
    }

    /// Validates the specifications and compiles the update order of every
    /// node.  Checks come in this order: duplicate names, unknown
    /// dependencies, compute functions, cycles.
    pub fn build(self) -> (r: Result<ExpressionTree<V, F>, BuildError>)
        ensures
            r is Ok <==> buildable(self.specs()),
            r matches Ok(t) ==> {
                &&& t.wf()
                &&& t.node_names() == spec_names(self.specs())
                &&& t.values() == self.specs().map_values(|s: NodeSpecification<V, F>| s.initial_value)
                &&& t.compute_fns() == self.specs().map_values(|s: NodeSpecification<V, F>| s.update_fn)
                &&& t.dependencies() == dependency_ids(self.specs())
            },
            r matches Err(BuildError::DuplicateName(s)) ==> exists|a: int, b: int|
                0 <= a < b < self.specs().len() && spec_names(self.specs())[a] == s@ && spec_names(self.specs())[b]
                    == s@,
            r matches Err(BuildError::UnknownDependency(s)) ==> !has_duplicate_name(spec_names(self.specs()))
                && exists|v: int, t: int|
                unknown_dependency(self.specs(), v, t) && self.specs()[v].depends_on@[t]@ == s@,
            r matches Err(BuildError::MissingComputeFunction(s)) ==> !has_duplicate_name(spec_names(self.specs()))
                && !has_unknown_dependency(self.specs()) && exists|v: int|
                0 <= v < self.specs().len() && missing_compute(#[trigger] self.specs()[v]) && self.specs()[v].name@ == s@,
            r matches Err(BuildError::UnexpectedComputeFunction(s)) ==> !has_duplicate_name(
                spec_names(self.specs()),
            ) && !has_unknown_dependency(self.specs()) && exists|v: int|
                0 <= v < self.specs().len() && unexpected_compute(#[trigger] self.specs()[v]) && self.specs()[v].name@
                    == s@,
            r matches Err(BuildError::CyclicDependency(s)) ==> !has_duplicate_name(spec_names(self.specs()))
                && !has_unknown_dependency(self.specs()) && !compute_mismatch(self.specs()) && exists|i: int|
                0 <= i < self.specs().len() && !settled(dependency_ids(self.specs()), i) && spec_names(
                    self.specs(),
                )[i] == s@,
    {
        let specs = self.nodes;
        let ghost s0 = specs@;
        let ghost names_s = spec_names(s0);
        let n = specs.len();
        assert(s0 == self.specs());

        // names, and their uniqueness
        let mut names: Vec<String> = Vec::new();
        let mut v: usize = 0;
        while v < n
            invariant
                s0 == self.specs(),
                names_s == spec_names(s0),
                n == specs.len(),
                s0 == specs@,
                v <= n,
                names.len() == v,
                forall|k: int| 0 <= k < v ==> (#[trigger] names@[k])@ == s0[k].name@,
            decreases n - v,
        {
            names.push(specs[v].name.clone());
            v += 1;
        }
        assert(names_view(names@) =~= names_s);
        let mut a: usize = 0;
        while a < n
            invariant
                s0 == self.specs(),
                names_s == spec_names(s0),
                n == specs.len() == names.len(),
                names_view(names@) == names_s,
                a <= n,
                forall|x: int, y: int| 0 <= x < a && x < y < n ==> names_s[x] != names_s[y],
            decreases n - a,
        {
            let mut b: usize = a + 1;
            while b < n
                invariant
                    s0 == self.specs(),
                    names_s == spec_names(s0),
                    n == specs.len() == names.len(),
                    names_view(names@) == names_s,
                    a < n,
                    a + 1 <= b <= n,
                    forall|x: int, y: int| 0 <= x < a && x < y < n ==> names_s[x] != names_s[y],
                    forall|y: int| a < y < b ==> names_s[a as int] != names_s[y],
                decreases n - b,
            {
                assert(names_s[b as int] == names@[b as int]@);
                assert(names_s[a as int] == names@[a as int]@);
                if names[a] == names[b] {
                    assert(names_s[a as int] == names_s[b as int]);
                    assert(has_duplicate_name(names_s));
                    return Err(BuildError::DuplicateName(names[a].clone()));
                }
                b += 1;
            }
            a += 1;
        }
        assert(!has_duplicate_name(names_s));
        assert(names_unique(names_s));

        // dependency names resolved to ids
        let mut deps: Vec<Vec<usize>> = Vec::new();
        let mut v: usize = 0;
        while v < n
            invariant
                s0 == self.specs(),
                names_s == spec_names(s0),
                n == specs.len() == names.len(),
                s0 == specs@,
                names_view(names@) == names_s,
                names_unique(names_s),
                v <= n,
                deps.len() == v,
                forall|w: int| 0 <= w < v ==> (#[trigger] deps@[w])@ == dependency_ids(s0)[w],
                forall|w: int, t: int| 0 <= w < v ==> !unknown_dependency(s0, w, t),
            decreases n - v,
        {
            let spec = &specs[v];
            let mut ds: Vec<usize> = Vec::new();
            let mut t: usize = 0;
            while t < spec.depends_on.len()
                invariant
                    s0 == self.specs(),
                    names_s == spec_names(s0),
                    n == specs.len() == names.len(),
                    s0 == specs@,
                    names_view(names@) == names_s,
                    names_unique(names_s),
                    v < n,
                    *spec == s0[v as int],
                    t <= spec.depends_on.len(),
                    ds.len() == t,
                    forall|k: int| 0 <= k < t ==> #[trigger] ds@[k] == dependency_ids(s0)[v as int][k],
                    forall|k: int| 0 <= k < t ==> !unknown_dependency(s0, v as int, k),
                decreases spec.depends_on.len() - t,
            {
                let dep = spec.depends_on[t];
                assert(dep@ == s0[v as int].depends_on@[t as int]@);
                match find_name(&names, dep) {
                    Some(u) => {
                        proof {
                            assert(names_s[u as int] == names@[u as int]@);
                            assert(names_s[u as int] == dep@);
                            lemma_index_of(names_s, u as int);
                            assert(index_of(names_s, dep@) == u);
                            assert(0 <= t < s0[v as int].depends_on@.len());
                            assert(dependency_ids(s0)[v as int].len() == s0[v as int].depends_on@.len());
                            assert(names_s.contains(dep@));
                            assert(dependency_ids(s0)[v as int][t as int] == u);
                            assert(!unknown_dependency(s0, v as int, t as int));
                        }
                        let ghost before = ds@;
                        ds.push(u);
                        assert forall|k: int| 0 <= k < t + 1 implies #[trigger] ds@[k] == dependency_ids(s0)[v as int][k] by {
                            if k < t {
                                assert(ds@[k] == before[k]);
                            }
                        }
                    },
                    None => {
                        proof {
                            assert(!names_s.contains(dep@));
                            assert(unknown_dependency(s0, v as int, t as int));
                            assert(has_unknown_dependency(s0));
                        }
                        return Err(BuildError::UnknownDependency(dep.to_owned()));
                    },
                }
                t += 1;
            }
            proof {
                assert(ds@ =~= dependency_ids(s0)[v as int]);
                assert forall|t: int| !unknown_dependency(s0, v as int, t) by {
                    if 0 <= t < spec.depends_on@.len() {
                        assert(!unknown_dependency(s0, v as int, t));
                    }
                }
            }
            deps.push(ds);
            v += 1;
        }
        assert(!has_unknown_dependency(s0)) by {
            if has_unknown_dependency(s0) {
                let (w, t) = choose|w: int, t: int| unknown_dependency(s0, w, t);
                assert(!unknown_dependency(s0, w, t));
            }
        }
        assert(deps_view(&deps) =~= dependency_ids(s0));
        proof {
            lemma_dependency_ids_wf(s0);
        }

        // compute functions exactly on the nodes with dependencies
        let mut v: usize = 0;
        while v < n
            invariant
                s0 == self.specs(),
                names_s == spec_names(s0),
                n == specs.len() == names.len(),
                s0 == specs@,
                names_view(names@) == names_s,
                v <= n,
                !has_duplicate_name(names_s),
                !has_unknown_dependency(s0),
                forall|w: int| 0 <= w < v ==> !missing_compute(#[trigger] s0[w]) && !unexpected_compute(s0[w]),
            decreases n - v,
        {
            let has_deps = specs[v].depends_on.len() > 0;
            let has_fn = specs[v].update_fn.is_some();
            assert(names_s[v as int] == names@[v as int]@);
            if has_deps && !has_fn {
                assert(missing_compute(s0[v as int]));
                assert(compute_mismatch(s0));
                return Err(BuildError::MissingComputeFunction(names[v].clone()));
            }
            if !has_deps && has_fn {
                assert(unexpected_compute(s0[v as int]));
                assert(compute_mismatch(s0));
                return Err(BuildError::UnexpectedComputeFunction(names[v].clone()));
            }
            v += 1;
        }

        // update orders, or the cycle
        let orders = match compile_update_orders(&deps) {
            Ok(orders) => orders,
            Err(i) => {
                assert(names_s[i as int] == names@[i as int]@);
                return Err(BuildError::CyclicDependency(names[i].clone()));
            },
        };

        // the values and compute functions move into the graph
        let mut values: Vec<V> = Vec::new();
        let mut fns: Vec<Option<F>> = Vec::new();
        let mut rest = specs;
        let mut v: usize = 0;
        while v < n
            invariant
                n == s0.len(),
                v <= n,
                rest@ == s0.subrange(v as int, n as int),
                values@ == s0.subrange(0, v as int).map_values(|s: NodeSpecification<V, F>| s.initial_value),
                fns@ == s0.subrange(0, v as int).map_values(|s: NodeSpecification<V, F>| s.update_fn),
            decreases n - v,
        {
            let s = rest.remove(0);
            assert(s == s0[v as int]);
            values.push(s.initial_value);
            fns.push(s.update_fn);
            assert(s0.subrange(0, v + 1).map_values(|s: NodeSpecification<V, F>| s.initial_value) =~= s0.subrange(
                0,
                v as int,
            ).map_values(|s: NodeSpecification<V, F>| s.initial_value).push(s0[v as int].initial_value));
            assert(s0.subrange(0, v + 1).map_values(|s: NodeSpecification<V, F>| s.update_fn) =~= s0.subrange(
                0,
                v as int,
            ).map_values(|s: NodeSpecification<V, F>| s.update_fn).push(s0[v as int].update_fn));
            assert(rest@ =~= s0.subrange(v + 1, n as int));
            v += 1;
        }
        assert(s0.subrange(0, n as int) =~= s0);
        let tree = ExpressionTree::assemble(NameIndex::from_names(names), values, fns, deps, orders);
        Ok(tree)
    }
}

/// With every dependency known, the resolved dependency ids are node ids.
pub proof fn lemma_dependency_ids_wf<V, F>(specs: Seq<NodeSpecification<V, F>>)
    requires
        !has_unknown_dependency(specs),
    ensures
        deps_wf(dependency_ids(specs)),
{
    let names = spec_names(specs);
    let deps = dependency_ids(specs);
    assert forall|w: int, t: int| 0 <= w < deps.len() && 0 <= t < deps[w].len() implies (#[trigger] deps[w][t]
        as int) < deps.len() by {
        assert(!unknown_dependency(specs, w, t));
        let k = index_of(names, specs[w].depends_on@[t]@);
        assert(names.contains(specs[w].depends_on@[t]@));
        assert(0 <= k < names.len());
    }
}

/// A specification set in which some node depends on itself, directly or
/// through other nodes, is not buildable.
pub proof fn lemma_cycle_rejected<V, F>(specs: Seq<NodeSpecification<V, F>>, x: int)
    requires
        0 <= x < specs.len(),
        reachable(dependency_ids(specs), x, x),
    ensures
        !buildable(specs),
{
    if !has_unknown_dependency(specs) {
        lemma_dependency_ids_wf(specs);
        lemma_cycle_unsettled(dependency_ids(specs), x);
    }
}

/// Specifications with unique names, known dependencies, compute functions
/// exactly on the nodes with dependencies and no node that depends on
/// itself, directly or through other nodes, are buildable.
pub proof fn lemma_acyclic_buildable<V, F>(specs: Seq<NodeSpecification<V, F>>)
    requires
        !has_duplicate_name(spec_names(specs)),
        !has_unknown_dependency(specs),
        !compute_mismatch(specs),
        acyclic(dependency_ids(specs)),
    ensures
        buildable(specs),
{
    lemma_dependency_ids_wf(specs);
    assert forall|i: int| 0 <= i < specs.len() implies #[trigger] settled(dependency_ids(specs), i) by {
        lemma_acyclic_settled(dependency_ids(specs), i);
    }
}

} // verus!
