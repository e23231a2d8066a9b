use expression_tree::builder::{BuildError, MyGraphBuilder, NodeSpecification};
use expression_tree::engine::{ComputeFn, ExpressionTree, NameIndex, RuntimeError};

struct Formula(fn(&Vec<f32>, &NameIndex) -> f32);

impl ComputeFn<f32> for Formula {
    fn compute(&self, values: &Vec<f32>, index: &NameIndex) -> f32 {
        (self.0)(values, index)
    }
}

fn value(values: &Vec<f32>, index: &NameIndex, name: &str) -> f32 {
    values[index.id_of(name).unwrap()]
}

fn leaf(name: &str, initial_value: f32) -> NodeSpecification<f32, Formula> {
    NodeSpecification {
        name: name.to_string(),
        initial_value,
        depends_on: vec![],
        update_fn: None,
    }
}

fn derived(
    name: &str,
    initial_value: f32,
    depends_on: Vec<&'static str>,
    f: fn(&Vec<f32>, &NameIndex) -> f32,
) -> NodeSpecification<f32, Formula> {
    NodeSpecification {
        name: name.to_string(),
        initial_value,
        depends_on,
        update_fn: Some(Formula(f)),
    }
}

fn fixture_specs() -> Vec<NodeSpecification<f32, Formula>> {
    vec![
        leaf("a", 1.0),
        leaf("b", 5.0),
        leaf("c", 10.0),
        derived("d", 64.0, vec!["a", "b"], |v, ids| value(v, ids, "a") * value(v, ids, "b")),
        derived("e", 32.0, vec!["b", "d", "c"], |v, ids| {
            value(v, ids, "b") * value(v, ids, "d") * value(v, ids, "c")
        }),
    ]
}

fn fixture() -> ExpressionTree<f32, Formula> {
    MyGraphBuilder::new().add_nodes(fixture_specs()).build().unwrap()
}

fn snapshot_of(t: &ExpressionTree<f32, Formula>) -> Vec<(String, f32)> {
    t.snapshot()
}

fn pairs(xs: &[(&str, f32)]) -> Vec<(String, f32)> {
    xs.iter().map(|(n, v)| (n.to_string(), *v)).collect()
}

fn order(t: &ExpressionTree<f32, Formula>, name: &str) -> Vec<String> {
    t.update_order_for(name).unwrap()
}

#[test]
fn fixture_initial_snapshot() {
    let t = fixture();
    assert_eq!(
        snapshot_of(&t),
        pairs(&[("a", 1.0), ("b", 5.0), ("c", 10.0), ("d", 64.0), ("e", 32.0)])
    );
    assert_eq!(t.node_count(), 5);
}

#[test]
fn fixture_update_orders() {
    let t = fixture();
    assert_eq!(order(&t, "a"), vec!["d", "e"]);
    assert_eq!(order(&t, "b"), vec!["d", "e"]);
    assert_eq!(order(&t, "c"), vec!["e"]);
    assert_eq!(order(&t, "d"), vec!["e"]);
    assert!(order(&t, "e").is_empty());
}

#[test]
fn fixture_end_to_end() {
    let mut t = fixture();
    let changes = t.update_value("a", 2.0).unwrap();
    assert_eq!(changes.len(), 2);
    assert_eq!((changes[0].node, changes[0].before, changes[0].after), (3, 64.0, 10.0));
    assert_eq!((changes[1].node, changes[1].before, changes[1].after), (4, 32.0, 500.0));
    assert_eq!(
        snapshot_of(&t),
        pairs(&[("a", 2.0), ("b", 5.0), ("c", 10.0), ("d", 10.0), ("e", 500.0)])
    );

    t.update_value("b", 3.0).unwrap();
    assert_eq!(
        snapshot_of(&t),
        pairs(&[("a", 2.0), ("b", 3.0), ("c", 10.0), ("d", 6.0), ("e", 180.0)])
    );

    let changes = t.update_value("c", 4.0).unwrap();
    assert_eq!(changes.len(), 1);
    assert_eq!((changes[0].node, changes[0].before, changes[0].after), (4, 180.0, 72.0));
    assert_eq!(
        snapshot_of(&t),
        pairs(&[("a", 2.0), ("b", 3.0), ("c", 4.0), ("d", 6.0), ("e", 72.0)])
    );
}

#[test]
fn unknown_name_changes_nothing() {
    let mut t = fixture();
    let before = snapshot_of(&t);
    assert_eq!(
        t.update_value("zzz", 1.0).unwrap_err(),
        RuntimeError::NodeNotFound("zzz".to_string())
    );
    assert_eq!(snapshot_of(&t), before);
    assert_eq!(t.value_of("zzz"), Err(RuntimeError::NodeNotFound("zzz".to_string())));
    assert_eq!(
        t.update_order_for("zzz"),
        Err(RuntimeError::NodeNotFound("zzz".to_string()))
    );
}

#[test]
fn value_of_reads_current_value() {
    let mut t = fixture();
    assert_eq!(t.value_of("d"), Ok(64.0));
    t.update_value("a", 3.0).unwrap();
    assert_eq!(t.value_of("a"), Ok(3.0));
    assert_eq!(t.value_of("d"), Ok(15.0));
}

#[test]
fn updating_a_derived_node_overrides_it() {
    let mut t = fixture();
    let changes = t.update_value("d", 7.0).unwrap();
    assert_eq!(changes.len(), 1);
    assert_eq!(changes[0].node, 4);
    assert_eq!(t.value_of("d"), Ok(7.0));
    assert_eq!(t.value_of("e"), Ok(350.0));
}

#[test]
fn name_index_resolves_names() {
    let t = fixture();
    let ids = t.name_index();
    assert_eq!(ids.len(), 5);
    assert_eq!(ids.id_of("c"), Ok(2));
    assert_eq!(ids.name(4), "e");
    assert_eq!(
        ids.id_of("nope"),
        Err(RuntimeError::InvalidComputeReference("nope".to_string()))
    );
}

#[test]
fn mutual_dependency_is_a_cycle() {
    let specs = vec![
        derived("x", 0.0, vec!["y"], |v, ids| value(v, ids, "y")),
        derived("y", 0.0, vec!["x"], |v, ids| value(v, ids, "x")),
    ];
    let r = MyGraphBuilder::new().add_nodes(specs).build();
    assert!(matches!(r, Err(BuildError::CyclicDependency(_))));
}

#[test]
fn self_dependency_is_a_cycle() {
    let specs = vec![derived("x", 0.0, vec!["x"], |v, ids| value(v, ids, "x"))];
    let r = MyGraphBuilder::new().add_nodes(specs).build();
    assert!(matches!(r, Err(BuildError::CyclicDependency(n)) if n == "x"));
}

#[test]
fn cycle_downstream_of_a_leaf_is_reported() {
    let specs = vec![
        leaf("a", 1.0),
        derived("p", 0.0, vec!["a", "q"], |v, ids| value(v, ids, "q")),
        derived("q", 0.0, vec!["p"], |v, ids| value(v, ids, "p")),
    ];
    let r = MyGraphBuilder::new().add_nodes(specs).build();
    assert!(matches!(r, Err(BuildError::CyclicDependency(n)) if n == "a"));
}

#[test]
fn unknown_dependency_is_rejected() {
    let specs = vec![leaf("a", 1.0), derived("d", 0.0, vec!["a", "ghost"], |v, ids| value(v, ids, "a"))];
    let r = MyGraphBuilder::new().add_nodes(specs).build();
    assert!(matches!(r, Err(BuildError::UnknownDependency(n)) if n == "ghost"));
}

#[test]
fn dependency_declared_later_is_resolved() {
    let specs = vec![
        derived("d", 0.0, vec!["a"], |v, ids| value(v, ids, "a") + 1.0),
        leaf("a", 1.0),
    ];
    let mut t = MyGraphBuilder::new().add_nodes(specs).build().unwrap();
    t.update_value("a", 4.0).unwrap();
    assert_eq!(t.value_of("d"), Ok(5.0));
}

#[test]
fn duplicate_name_is_rejected() {
    let specs = vec![leaf("a", 1.0), leaf("b", 2.0), leaf("a", 3.0)];
    let r = MyGraphBuilder::new().add_nodes(specs).build();
    assert!(matches!(r, Err(BuildError::DuplicateName(n)) if n == "a"));
}

#[test]
fn missing_compute_function_is_rejected() {
    let mut d = leaf("d", 0.0);
    d.depends_on = vec!["a"];
    let r = MyGraphBuilder::new().add_nodes(vec![leaf("a", 1.0), d]).build();
    assert!(matches!(r, Err(BuildError::MissingComputeFunction(n)) if n == "d"));
}

#[test]
fn unexpected_compute_function_is_rejected() {
    let specs = vec![derived("a", 1.0, vec![], |_, _| 0.0)];
    let r = MyGraphBuilder::new().add_nodes(specs).build();
    assert!(matches!(r, Err(BuildError::UnexpectedComputeFunction(n)) if n == "a"));
}

#[test]
fn empty_builder_builds_empty_graph() {
    let t: ExpressionTree<f32, Formula> = MyGraphBuilder::new().build().unwrap();
    assert_eq!(t.node_count(), 0);
    assert!(t.snapshot().is_empty());
}

#[test]
fn add_nodes_appends_in_order() {
    let mut specs = fixture_specs();
    let tail = specs.split_off(3);
    let t = MyGraphBuilder::new().add_nodes(specs).add_nodes(tail).build().unwrap();
    assert_eq!(
        snapshot_of(&t),
        pairs(&[("a", 1.0), ("b", 5.0), ("c", 10.0), ("d", 64.0), ("e", 32.0)])
    );
}

#[test]
fn building_twice_gives_the_same_orders() {
    let t1 = fixture();
    let t2 = fixture();
    for n in ["a", "b", "c", "d", "e"] {
        assert_eq!(order(&t1, n), order(&t2, n));
    }
}

fn diamond_specs() -> Vec<NodeSpecification<f32, Formula>> {
    // s -> x -> y -> z, and s -> z directly; w is unrelated
    vec![
        leaf("s", 1.0),
        derived("z", 0.0, vec!["s", "y"], |v, ids| value(v, ids, "s") + value(v, ids, "y")),
        derived("y", 0.0, vec!["x"], |v, ids| value(v, ids, "x") * 2.0),
        derived("x", 0.0, vec!["s"], |v, ids| value(v, ids, "s") + 1.0),
        leaf("w", 9.0),
    ]
}

#[test]
fn longer_path_decides_the_position() {
    let t = MyGraphBuilder::new().add_nodes(diamond_specs()).build().unwrap();
    // z is one edge from s but also three edges away: it must come after y
    assert_eq!(order(&t, "s"), vec!["x", "y", "z"]);
    assert_eq!(order(&t, "x"), vec!["y", "z"]);
    assert!(order(&t, "w").is_empty());
}

#[test]
fn update_respects_dependency_order() {
    let mut t = MyGraphBuilder::new().add_nodes(diamond_specs()).build().unwrap();
    t.update_value("s", 3.0).unwrap();
    assert_eq!(t.value_of("x"), Ok(4.0));
    assert_eq!(t.value_of("y"), Ok(8.0));
    assert_eq!(t.value_of("z"), Ok(11.0));
    assert_eq!(t.value_of("w"), Ok(9.0));
}

#[test]
fn ties_are_broken_by_id() {
    let specs = vec![
        leaf("a", 1.0),
        derived("q", 0.0, vec!["a"], |v, ids| value(v, ids, "a")),
        derived("p", 0.0, vec!["a"], |v, ids| value(v, ids, "a")),
    ];
    let t = MyGraphBuilder::new().add_nodes(specs).build().unwrap();
    assert_eq!(order(&t, "a"), vec!["q", "p"]);
}

