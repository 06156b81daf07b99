use tpt_visual::error::CompositorError;
use tpt_visual::graph::CompositorGraph;

#[test]
fn cycle_detection() {
    let mut graph: CompositorGraph<&str> = CompositorGraph::new();
    graph.add_node("a", 1);
    graph.add_node("b", 1);
    graph.connect(1, 0, 0).unwrap();
    graph.connect(0, 1, 0).unwrap();
    assert!(graph.topological_order().is_err());
}

#[test]
fn unconnected_inputs_rejected() {
    let mut graph: CompositorGraph<&str> = CompositorGraph::new();
    graph.add_node("a", 0);
    graph.add_node("b", 2);
    graph.connect(0, 1, 0).unwrap();
    assert!(graph.topological_order().is_err());
}

#[test]
fn connect_validates_ranges() {
    let mut graph: CompositorGraph<&str> = CompositorGraph::new();
    graph.add_node("a", 0);
    assert!(graph.connect(5, 0, 0).is_err());
    assert!(graph.connect(0, 0, 3).is_err());
}

#[test]
fn topological_order_puts_producers_first() {
    let mut graph: CompositorGraph<u8> = CompositorGraph::new();
    let out = graph.add_node(0, 2);
    let a = graph.add_node(1, 0);
    let b = graph.add_node(2, 1);
    graph.connect(a, b, 0).unwrap();
    graph.connect(a, out, 0).unwrap();
    graph.connect(b, out, 1).unwrap();
    let order = graph.topological_order().unwrap();
    assert_eq!(order.len(), 3);
    let pos = |id: usize| order.iter().position(|&x| x == id).unwrap();
    assert!(pos(a) < pos(b));
    assert!(pos(b) < pos(out));
}

#[test]
fn graph_error_messages() {
    let mut graph: CompositorGraph<()> = CompositorGraph::new();
    graph.add_node((), 0);
    graph.add_node((), 1);
    graph.add_node((), 1);
    match graph.topological_order() {
        Err(CompositorError::InvalidOperation(m)) => assert_eq!(m, "node 1 has an unconnected input"),
        _ => panic!("expected unconnected input"),
    }
    match graph.connect(7, 1, 0) {
        Err(CompositorError::InvalidOperation(m)) => assert_eq!(m, "connect 7 -> 1: node count is 3"),
        _ => panic!("expected range error"),
    }
    match graph.connect(0, 1, 4) {
        Err(CompositorError::InvalidOperation(m)) => assert_eq!(m, "node 1 has no input slot 4"),
        _ => panic!("expected slot error"),
    }
    graph.connect(2, 1, 0).unwrap();
    graph.connect(1, 2, 0).unwrap();
    match graph.topological_order() {
        Err(CompositorError::InvalidOperation(m)) => assert_eq!(m, "compositing graph contains a cycle"),
        _ => panic!("expected cycle"),
    }
}

#[test]
fn node_payloads_can_be_updated_in_place() {
    let mut graph: CompositorGraph<u32> = CompositorGraph::new();
    let a = graph.add_node(1, 0);
    let b = graph.add_node(2, 1);
    graph.connect(a, b, 0).unwrap();
    *graph.node_mut(b) += 40;
    assert_eq!(*graph.node(b), 42);
    assert_eq!(*graph.node(a), 1);
    assert_eq!(graph.input(b, 0), Some(a));
}

#[test]
fn topological_order_takes_the_smallest_ready_node_first() {
    let mut graph: CompositorGraph<u8> = CompositorGraph::new();
    let a = graph.add_node(0, 0);
    let b = graph.add_node(1, 0);
    let c = graph.add_node(2, 2);
    let d = graph.add_node(3, 1);
    graph.connect(a, c, 0).unwrap();
    graph.connect(b, c, 1).unwrap();
    graph.connect(c, d, 0).unwrap();
    assert_eq!(graph.topological_order().unwrap(), vec![0, 1, 2, 3]);

    let mut g: CompositorGraph<u8> = CompositorGraph::new();
    let out = g.add_node(0, 2);
    let x = g.add_node(1, 0);
    let y = g.add_node(2, 1);
    g.connect(x, y, 0).unwrap();
    g.connect(x, out, 0).unwrap();
    g.connect(y, out, 1).unwrap();
    assert_eq!(g.topological_order().unwrap(), vec![1, 2, 0]);
    assert_eq!(g.execution_order().unwrap(), vec![1, 2, 0]);
}

#[test]
fn last_added_unconnected_node_renders_last() {
    let mut graph: CompositorGraph<u8> = CompositorGraph::new();
    graph.add_node(0, 0);
    graph.add_node(1, 0);
    assert_eq!(graph.execution_order().unwrap(), vec![0, 1]);
}

#[test]
fn last_added_sink_renders_last_even_when_ready_early() {
    // node 2 needs no input but was added last: it still renders last
    let mut graph: CompositorGraph<u8> = CompositorGraph::new();
    let src = graph.add_node(0, 0);
    let fx = graph.add_node(1, 1);
    let out = graph.add_node(2, 0);
    graph.connect(src, fx, 0).unwrap();
    assert_eq!(out, 2);
    assert_eq!(graph.execution_order().unwrap(), vec![0, 1, 2]);

    // a later source feeding an earlier consumer comes before that consumer
    let mut g: CompositorGraph<u8> = CompositorGraph::new();
    let blend = g.add_node(0, 2);
    let a = g.add_node(1, 0);
    let b = g.add_node(2, 0);
    g.connect(a, blend, 0).unwrap();
    g.connect(b, blend, 1).unwrap();
    assert_eq!(g.execution_order().unwrap(), vec![1, 2, 0]);
}
