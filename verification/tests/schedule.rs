use tpt_visual::error::CompositorError;
use tpt_visual::graph::CompositorGraph;
use tpt_visual::schedule::{ExecAction, ExecSchedule};

fn run(graph: &CompositorGraph<u8>, forwards: &[usize]) -> (Vec<ExecAction>, Vec<usize>) {
    let mut schedule = ExecSchedule::new(graph).unwrap();
    let mut actions = Vec::new();
    while let Some(node) = schedule.current() {
        actions.push(schedule.step(forwards.contains(&node)));
    }
    (actions, schedule.finish())
}

#[test]
fn schedule_renders_the_last_node_into_the_final_target() {
    let mut graph: CompositorGraph<u8> = CompositorGraph::new();
    let canvas = graph.add_node(0, 0);
    let source = graph.add_node(1, 0);
    let blend = graph.add_node(2, 2);
    let output = graph.add_node(3, 1);
    graph.connect(canvas, blend, 0).unwrap();
    graph.connect(source, blend, 1).unwrap();
    graph.connect(blend, output, 0).unwrap();
    let (actions, released) = run(&graph, &[]);
    assert_eq!(
        actions,
        vec![
            ExecAction::RenderPooled(0),
            ExecAction::RenderPooled(1),
            ExecAction::RenderPooled(2),
            ExecAction::RenderFinal(3),
        ]
    );
    assert_eq!(released, vec![0, 1, 2]);
}

#[test]
fn forwarding_nodes_hold_no_pooled_target() {
    let mut graph: CompositorGraph<u8> = CompositorGraph::new();
    let source = graph.add_node(0, 0);
    let fx = graph.add_node(1, 1);
    let output = graph.add_node(2, 1);
    graph.connect(source, fx, 0).unwrap();
    graph.connect(fx, output, 0).unwrap();
    // the last node renders into the final target even when it could forward
    let (actions, released) = run(&graph, &[1, 2]);
    assert_eq!(
        actions,
        vec![ExecAction::RenderPooled(0), ExecAction::Forward(1), ExecAction::RenderFinal(2)]
    );
    assert_eq!(released, vec![0]);
}

#[test]
fn single_node_graph_renders_straight_into_the_target() {
    let mut graph: CompositorGraph<u8> = CompositorGraph::new();
    graph.add_node(0, 0);
    let (actions, released) = run(&graph, &[0]);
    assert_eq!(actions, vec![ExecAction::RenderFinal(0)]);
    assert!(released.is_empty());
}

#[test]
fn schedule_fails_like_the_execution_order() {
    let empty: CompositorGraph<u8> = CompositorGraph::new();
    match ExecSchedule::new(&empty) {
        Err(CompositorError::InvalidOperation(m)) => assert_eq!(m, "compositing graph is empty"),
        _ => panic!("expected an empty-graph error"),
    }
    let mut cyclic: CompositorGraph<u8> = CompositorGraph::new();
    cyclic.add_node(0, 1);
    cyclic.add_node(1, 1);
    cyclic.connect(1, 0, 0).unwrap();
    cyclic.connect(0, 1, 0).unwrap();
    match ExecSchedule::new(&cyclic) {
        Err(CompositorError::InvalidOperation(m)) => assert_eq!(m, "compositing graph contains a cycle"),
        _ => panic!("expected a cycle error"),
    }
    let mut open: CompositorGraph<u8> = CompositorGraph::new();
    open.add_node(0, 1);
    match ExecSchedule::new(&open) {
        Err(CompositorError::InvalidOperation(m)) => assert_eq!(m, "node 0 has an unconnected input"),
        _ => panic!("expected an unconnected-input error"),
    }
}
