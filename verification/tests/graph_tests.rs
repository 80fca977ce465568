use dezero::config::{backward_mode, end_backward, no_grad, Config};
use dezero::graph::Graph;

#[test]
fn test_no_grad() {
    let mut config = Config::new();
    let mut graph = Graph::new();
    let x = graph.new_variable();
    let y;
    {
        let guard = no_grad(&mut config);
        y = graph.call(&config, vec![x]);
        guard.release(&mut config);
    }
    assert!(!graph.has_creator(y), "no creator is recorded under no_grad");

    let z = graph.call(&config, vec![x]);
    assert!(graph.has_creator(z), "once the guard is released the creator is recorded");
}

#[test]
fn backprop_is_enabled_by_default_and_switchable() {
    let mut config = Config::new();
    assert!(config.enable_backprop());
    config.set_enable_backprop(false);
    assert!(!config.enable_backprop());
    config.set_enable_backprop(true);
    assert!(config.enable_backprop());
}

#[test]
fn nested_guards_restore_the_outer_state() {
    let mut config = Config::new();
    let outer = no_grad(&mut config);
    assert!(!config.enable_backprop());
    let inner = no_grad(&mut config);
    inner.release(&mut config);
    assert!(!config.enable_backprop());
    outer.release(&mut config);
    assert!(config.enable_backprop());

    config.set_enable_backprop(false);
    let guard = no_grad(&mut config);
    guard.release(&mut config);
    assert!(!config.enable_backprop());
}

#[test]
fn generations_grow_along_calls() {
    let config = Config::new();
    let mut graph = Graph::new();
    let x = graph.new_variable();
    let a = graph.call(&config, vec![x]);
    let b = graph.call(&config, vec![a]);
    let c = graph.call(&config, vec![x, b]);
    assert_eq!(graph.len(), 4);
    assert_eq!(
        [graph.generation(x), graph.generation(a), graph.generation(b), graph.generation(c)],
        [0, 1, 2, 3]
    );
}

#[test]
fn backward_order_visits_consumers_first() {
    // x -> a = f(x); b = g(x); y = h(a, b); the diamond joins again at x
    let config = Config::new();
    let mut graph = Graph::new();
    let x = graph.new_variable();
    let a = graph.call(&config, vec![x]);
    let b = graph.call(&config, vec![x]);
    let y = graph.call(&config, vec![a, b]);
    let unrelated = graph.new_variable();
    let order = graph.backward_order(y);
    assert_eq!(order[0], y);
    assert_eq!(order.len(), 4);
    assert!(!order.contains(&unrelated));
    let pos = |v: usize| order.iter().position(|&u| u == v).unwrap();
    assert!(pos(a) < pos(x));
    assert!(pos(b) < pos(x));
    assert_eq!(pos(x), 3);
    // generations never increase along the order
    for w in order.windows(2) {
        assert!(graph.generation(w[1]) <= graph.generation(w[0]));
    }
}

#[test]
fn backward_order_of_a_leaf_is_the_leaf() {
    let mut graph = Graph::new();
    let x = graph.new_variable();
    assert_eq!(graph.backward_order(x), vec![x]);
}

#[test]
fn backward_order_takes_the_last_queued_among_equal_generations() {
    // y = h(a, b) queues a, then b; both have generation 1, so b comes first
    let config = Config::new();
    let mut graph = Graph::new();
    let x = graph.new_variable();
    let a = graph.call(&config, vec![x]);
    let b = graph.call(&config, vec![x]);
    let y = graph.call(&config, vec![a, b]);
    assert_eq!(graph.backward_order(y), vec![y, b, a, x]);

    let z = graph.call(&config, vec![b, a]);
    assert_eq!(graph.backward_order(z), vec![z, a, b, x]);
}

#[test]
fn backward_plan_seeds_the_output_and_clears_intermediate_gradients() {
    let config = Config::new();
    let mut graph = Graph::new();
    let x = graph.new_variable();
    let a = graph.call(&config, vec![x]);
    let b = graph.call(&config, vec![x]);
    let y = graph.call(&config, vec![a, b]);

    let plan = graph.backward_plan(y, false, false);
    assert!(plan.seed_output);
    assert_eq!(plan.order, vec![y, b, a, x]);
    // y, b and a drop their gradients; the leaf x keeps its own
    assert_eq!(plan.clear, vec![true, true, true, false]);

    let kept = graph.backward_plan(y, true, true);
    assert!(!kept.seed_output);
    assert_eq!(kept.order, vec![y, b, a, x]);
    assert_eq!(kept.clear, vec![false, false, false, false]);

    let leaf = graph.backward_plan(x, false, false);
    assert_eq!(leaf.order, vec![x]);
    assert_eq!(leaf.clear, vec![false]);
}

#[test]
fn backward_leaves_the_switch_as_it_found_it() {
    let mut config = Config::new();
    let guard = backward_mode(&mut config, false);
    assert!(guard.is_some());
    assert!(!config.enable_backprop());
    end_backward(guard, &mut config);
    assert!(config.enable_backprop());

    let guard = backward_mode(&mut config, true);
    assert!(guard.is_none());
    assert!(config.enable_backprop());
    end_backward(guard, &mut config);
    assert!(config.enable_backprop());

    config.set_enable_backprop(false);
    let guard = backward_mode(&mut config, false);
    end_backward(guard, &mut config);
    assert!(!config.enable_backprop());
}
