use dependency_graph::{AcyclicDependencyGraph, DependencyError};
use std::collections::HashSet;

fn set_of<'a>(items: &[&'a str]) -> HashSet<&'a str> {
    items.iter().copied().collect()
}

fn kitchen() -> AcyclicDependencyGraph<&'static str> {
    let mut graph = AcyclicDependencyGraph::new();
    graph.depend_on("cake", "eggs").unwrap();
    graph.depend_on("cake", "flour").unwrap();
    graph.depend_on("eggs", "chickens").unwrap();
    graph.depend_on("flour", "grain").unwrap();
    graph.depend_on("chickens", "grain").unwrap();
    graph.depend_on("grain", "soil").unwrap();
    graph.depend_on("grain", "water").unwrap();
    graph.depend_on("chickens", "water").unwrap();
    graph
}

#[test]
fn self_referential_dependencies_detected() {
    let mut graph = AcyclicDependencyGraph::new();
    assert!(graph.depend_on("a", "a").is_err());
}

#[test]
fn circular_dependencies_detected() {
    let mut graph = AcyclicDependencyGraph::new();
    graph.depend_on("a", "b").unwrap();
    graph.depend_on("b", "c").unwrap();
    assert!(graph.depend_on("c", "a").is_err());
}

#[test]
fn simple_topological_sort_forward() {
    let graph = kitchen();

    let layers = graph.get_forward_dependency_topological_layers();
    println!("layers: {:?}", layers);

    let fwd_bckwd_check = |node: &str, expected_fwd: Vec<&str>, expected_bwd: Vec<&str>| {
        let fwd = graph.get_forward_dependencies(node);
        let bwd = graph.get_backward_dependencies(node);

        assert_eq!(fwd.len(), expected_fwd.len());
        assert_eq!(bwd.len(), expected_bwd.len());
        for expected_node in expected_fwd {
            assert!(fwd.contains(expected_node));
        }
        for expected_node in expected_bwd {
            assert!(bwd.contains(expected_node));
        }
    };
    fwd_bckwd_check(
        "cake",
        vec!["eggs", "grain", "soil", "chickens", "water", "flour"],
        vec![],
    );
    fwd_bckwd_check(
        "eggs",
        vec!["chickens", "grain", "soil", "water"],
        vec!["cake"],
    );
    fwd_bckwd_check("flour", vec!["grain", "soil", "water"], vec!["cake"]);
    fwd_bckwd_check(
        "chickens",
        vec!["grain", "soil", "water"],
        vec!["cake", "eggs"],
    );
    fwd_bckwd_check(
        "grain",
        vec!["water", "soil"],
        vec!["cake", "eggs", "flour", "chickens"],
    );
    fwd_bckwd_check(
        "soil",
        vec![],
        vec!["grain", "eggs", "flour", "cake", "chickens"],
    );
    fwd_bckwd_check(
        "water",
        vec![],
        vec!["grain", "eggs", "flour", "cake", "chickens"],
    );
}

#[test]
fn self_reference_is_reported_and_changes_nothing() {
    let mut graph = AcyclicDependencyGraph::new();
    graph.depend_on("x", "y").unwrap();
    assert_eq!(graph.depend_on("x", "x"), Err(DependencyError::SelfReference));
    assert_eq!(graph.depend_on("z", "z"), Err(DependencyError::SelfReference));
    assert_eq!(graph.get_leaves(), set_of(&["y"]));
    assert_eq!(graph.get_roots(), set_of(&["x"]));
    assert!(graph.get_forward_dependencies("z").is_empty());
}

#[test]
fn closing_edge_is_circular_and_changes_nothing() {
    let mut graph = AcyclicDependencyGraph::new();
    graph.depend_on("a", "b").unwrap();
    graph.depend_on("b", "c").unwrap();
    assert_eq!(graph.depend_on("c", "a"), Err(DependencyError::CircularDependency));
    assert_eq!(graph.depend_on("b", "a"), Err(DependencyError::CircularDependency));
    assert_eq!(graph.get_forward_dependencies("c"), HashSet::new());
    assert_eq!(graph.get_forward_dependencies("a"), set_of(&["b", "c"]));
    assert_eq!(graph.get_backward_dependencies("a"), HashSet::new());
    assert_eq!(graph.get_leaves(), set_of(&["c"]));
}

#[test]
fn repeated_edge_is_accepted_once() {
    let mut graph = AcyclicDependencyGraph::new();
    assert_eq!(graph.depend_on(1u32, 2u32), Ok(()));
    assert_eq!(graph.depend_on(1u32, 2u32), Ok(()));
    assert_eq!(graph.get_forward_dependencies(1), [2u32].into_iter().collect::<HashSet<u32>>());
    assert_eq!(graph.get_forward_dependency_topological_layers().len(), 2);
}

#[test]
fn transitive_queries_on_kitchen() {
    let graph = kitchen();
    assert_eq!(
        graph.get_forward_dependencies("cake"),
        set_of(&["eggs", "flour", "chickens", "grain", "soil", "water"])
    );
    assert_eq!(
        graph.get_backward_dependencies("grain"),
        set_of(&["cake", "eggs", "flour", "chickens"])
    );
    assert!(graph.depends_on("cake", "soil"));
    assert!(graph.depends_on("eggs", "water"));
    assert!(!graph.depends_on("soil", "cake"));
    assert!(!graph.depends_on("flour", "chickens"));
    assert!(!graph.depends_on("cake", "cake"));
    for node in ["cake", "eggs", "flour", "chickens", "grain", "soil", "water"] {
        for dep in graph.get_forward_dependencies(node) {
            assert!(!graph.depends_on(dep, node));
        }
    }
}

#[test]
fn leaves_and_roots_of_kitchen() {
    let graph = kitchen();
    assert_eq!(graph.get_leaves(), set_of(&["soil", "water"]));
    assert_eq!(graph.get_roots(), set_of(&["cake"]));
}

#[test]
fn forward_layers_of_kitchen() {
    let graph = kitchen();
    let layers = graph.get_forward_dependency_topological_layers();
    assert_eq!(
        layers,
        vec![
            set_of(&["soil", "water"]),
            set_of(&["grain"]),
            set_of(&["flour", "chickens"]),
            set_of(&["eggs"]),
            set_of(&["cake"]),
        ]
    );
}

#[test]
fn backward_layers_of_kitchen() {
    let graph = kitchen();
    let layers = graph.get_backward_dependency_topological_layers();
    assert_eq!(
        layers,
        vec![
            set_of(&["cake"]),
            set_of(&["eggs", "flour"]),
            set_of(&["chickens"]),
            set_of(&["grain"]),
            set_of(&["soil", "water"]),
        ]
    );
}

#[test]
fn every_edge_points_to_an_earlier_layer() {
    let graph = kitchen();
    let layers = graph.get_forward_dependency_topological_layers();
    let layer_of = |n: &str| layers.iter().position(|l| l.contains(n)).unwrap();
    let edges = [
        ("cake", "eggs"),
        ("cake", "flour"),
        ("eggs", "chickens"),
        ("flour", "grain"),
        ("chickens", "grain"),
        ("grain", "soil"),
        ("grain", "water"),
        ("chickens", "water"),
    ];
    for (from, to) in edges {
        assert!(layer_of(to) < layer_of(from));
    }
    let total: usize = layers.iter().map(|l| l.len()).sum();
    assert_eq!(total, 7);
}

#[test]
fn queries_repeat_identically() {
    let graph = kitchen();
    assert_eq!(graph.get_leaves(), graph.get_leaves());
    assert_eq!(graph.get_roots(), graph.get_roots());
    assert_eq!(graph.get_forward_dependencies("eggs"), graph.get_forward_dependencies("eggs"));
    assert_eq!(graph.get_backward_dependencies("soil"), graph.get_backward_dependencies("soil"));
    assert_eq!(
        graph.get_forward_dependency_topological_layers(),
        graph.get_forward_dependency_topological_layers()
    );
    assert_eq!(
        graph.get_backward_dependency_topological_layers(),
        graph.get_backward_dependency_topological_layers()
    );
}

#[test]
fn empty_graph_has_nothing() {
    let graph: AcyclicDependencyGraph<u64> = AcyclicDependencyGraph::new();
    assert!(graph.get_leaves().is_empty());
    assert!(graph.get_roots().is_empty());
    assert!(graph.get_forward_dependencies(7).is_empty());
    assert!(graph.get_backward_dependencies(7).is_empty());
    assert!(!graph.depends_on(7, 8));
    assert!(graph.get_forward_dependency_topological_layers().is_empty());
    assert!(graph.get_backward_dependency_topological_layers().is_empty());
}
