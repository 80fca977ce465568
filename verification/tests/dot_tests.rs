use dezero::config::Config;
use dezero::dot::{dot_func, dot_var, get_dot_graph, push_decimal};
use dezero::graph::Graph;

#[test]
fn function_node() {
    assert_eq!(dot_func(3, "Square"), "3 [label=\"Square\", color=lightblue, style=filled, shape=box]\n");
    assert_eq!(dot_func(140235, "Add"), "140235 [label=\"Add\", color=lightblue, style=filled, shape=box]\n");
}

#[test]
fn variable_node() {
    assert_eq!(dot_var(7, "x", &vec![2, 3], false), "7 [label=\"x\", color=orange, style=filled]\n");
    assert_eq!(dot_var(7, "x", &vec![2, 3], true), "7 [label=\"x (2, 3)\", color=orange, style=filled]\n");
    assert_eq!(dot_var(0, "", &vec![], true), "0 [label=\" ()\", color=orange, style=filled]\n");
    assert_eq!(dot_var(12, "y", &vec![10], true), "12 [label=\"y (10)\", color=orange, style=filled]\n");
}

#[test]
fn decimal_numerals() {
    let mut s = String::from("n=");
    push_decimal(&mut s, 0);
    push_decimal(&mut s, 1907);
    assert_eq!(s, "n=01907");
    let mut m = String::new();
    push_decimal(&mut m, usize::MAX);
    assert_eq!(m, usize::MAX.to_string());
}

#[test]
fn whole_graph_in_dot() {
    // x; a = square(x); y = add(a, x)
    let config = Config::new();
    let mut graph = Graph::new();
    let x = graph.new_variable();
    let a = graph.call(&config, vec![x]);
    let y = graph.call(&config, vec![a, x]);
    let names = vec!["x".to_string(), "a".to_string(), "y".to_string()];
    let shapes = vec![vec![2, 3], vec![2, 3], vec![2, 3]];
    let labels = vec![String::new(), "Square".to_string(), "Add".to_string()];
    let text = get_dot_graph(&graph, y, &names, &shapes, &labels, false);
    let expected = "digraph g {\n\
        2 [label=\"y\", color=orange, style=filled]\n\
        5 [label=\"Add\", color=lightblue, style=filled, shape=box]\n\
        5 -> 2\n\
        1 [label=\"a\", color=orange, style=filled]\n\
        1 -> 5\n\
        0 [label=\"x\", color=orange, style=filled]\n\
        0 -> 5\n\
        4 [label=\"Square\", color=lightblue, style=filled, shape=box]\n\
        4 -> 1\n\
        0 -> 4\n\
        }\n";
    assert_eq!(text, expected);

    let leaf = get_dot_graph(&graph, x, &names, &shapes, &labels, true);
    assert_eq!(leaf, "digraph g {\n0 [label=\"x (2, 3)\", color=orange, style=filled]\n}\n");
}
