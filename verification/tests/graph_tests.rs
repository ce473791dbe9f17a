use includer::graph::{duplicate_paths, DependencyGraph};
use includer::path::LexPath;

fn p(text: &str) -> LexPath {
    LexPath::parse(text)
}

#[test]
fn new_graph_knows_nothing() {
    let graph = DependencyGraph::new();
    assert_eq!(graph.dependents_of(&p("a.txt")), None);
}

#[test]
fn record_adds_an_edge() {
    let mut graph = DependencyGraph::new();
    graph.record(&p("b.txt"), &p("a.txt"));
    assert_eq!(graph.dependents_of(&p("b.txt")), Some(vec![p("a.txt")]));
    assert_eq!(graph.dependents_of(&p("a.txt")), None);
}

#[test]
fn record_keeps_each_includer_once() {
    let mut graph = DependencyGraph::new();
    graph.record(&p("b.txt"), &p("a.txt"));
    graph.record(&p("b.txt"), &p("c.txt"));
    graph.record(&p("b.txt"), &p("a.txt"));
    graph.record(&p("d.txt"), &p("a.txt"));
    let mut dependents = graph.dependents_of(&p("b.txt")).unwrap();
    dependents.sort_by_key(|d| format!("{:?}", d));
    assert_eq!(dependents, vec![p("a.txt"), p("c.txt")]);
    assert_eq!(graph.dependents_of(&p("d.txt")), Some(vec![p("a.txt")]));
}

#[test]
fn record_all_sees_includes_from_the_root() {
    let mut graph = DependencyGraph::new();
    let includes = vec![p("/src/shared/x.txt"), p("/etc/motd"), p("/src/shared/x.txt")];
    graph.record_all(&includes, &p("/src"), &p("main.txt"));
    assert_eq!(graph.dependents_of(&p("shared/x.txt")), Some(vec![p("main.txt")]));
    assert_eq!(graph.dependents_of(&p("/etc/motd")), Some(vec![p("main.txt")]));
    assert_eq!(graph.dependents_of(&p("/src/shared/x.txt")), None);
}

#[test]
fn edges_are_never_lost() {
    let mut graph = DependencyGraph::new();
    graph.record(&p("b.txt"), &p("a.txt"));
    graph.record_all(&Vec::new(), &p("/src"), &p("a.txt"));
    graph.record(&p("c.txt"), &p("a.txt"));
    assert_eq!(graph.dependents_of(&p("b.txt")), Some(vec![p("a.txt")]));
}

#[test]
fn duplicate_paths_copies_in_order() {
    let paths = vec![p("b"), p("a"), p("b")];
    assert_eq!(duplicate_paths(&paths), paths);
}
