use tpt_visual::composite::{output_blit_mode, plan_composite, CompositeNode, LayerPlan};
use tpt_visual::error::CompositorError;
use tpt_visual::graph::CompositorGraph;

fn layer(uploaded: bool, has_effects: bool) -> LayerPlan {
    LayerPlan { uploaded, has_effects }
}

#[test]
fn composite_plan_wires_each_uploaded_clip() {
    let layers = vec![layer(true, true), layer(false, true), layer(true, false)];
    let g = plan_composite(&layers);
    // canvas, 4 nodes for clip 0, 3 nodes for clip 2, output
    assert_eq!(g.len(), 9);
    assert_eq!(*g.node(0), CompositeNode::Canvas);
    assert_eq!(*g.node(1), CompositeNode::Source { layer: 0 });
    assert_eq!(*g.node(2), CompositeNode::Effects { layer: 0 });
    assert_eq!(*g.node(3), CompositeNode::Transform { layer: 0 });
    assert_eq!(*g.node(4), CompositeNode::Blend { layer: 0 });
    assert_eq!(*g.node(5), CompositeNode::Source { layer: 2 });
    assert_eq!(*g.node(6), CompositeNode::Transform { layer: 2 });
    assert_eq!(*g.node(7), CompositeNode::Blend { layer: 2 });
    assert_eq!(*g.node(8), CompositeNode::Output);

    assert_eq!(g.input_count(1), 0);
    assert_eq!(g.input(2, 0), Some(1));
    assert_eq!(g.input(3, 0), Some(2));
    assert_eq!(g.input(4, 0), Some(0));
    assert_eq!(g.input(4, 1), Some(3));
    // a clip without effects feeds its transform from the source directly
    assert_eq!(g.input(6, 0), Some(5));
    assert_eq!(g.input(7, 0), Some(4));
    assert_eq!(g.input(7, 1), Some(6));
    assert_eq!(g.input(8, 0), Some(7));
}

#[test]
fn composite_plan_without_clips_blits_the_canvas() {
    let g = plan_composite(&vec![layer(false, false)]);
    assert_eq!(g.len(), 2);
    assert_eq!(*g.node(1), CompositeNode::Output);
    assert_eq!(g.input(1, 0), Some(0));
}

#[test]
fn composite_plan_is_always_executable() {
    for n in 0..6usize {
        let layers: Vec<LayerPlan> = (0..n).map(|i| layer(i % 3 != 1, i % 2 == 0)).collect();
        let g = plan_composite(&layers);
        let order = g.execution_order().unwrap();
        assert_eq!(order.len(), g.len());
        assert_eq!(*g.node(order[order.len() - 1]), CompositeNode::Output);
        let mut position = vec![0usize; g.len()];
        for (k, node) in order.iter().enumerate() {
            position[*node] = k;
        }
        for node in 0..g.len() {
            for slot in 0..g.input_count(node) {
                let producer = g.input(node, slot).unwrap();
                assert!(position[producer] < position[node]);
            }
        }
    }
}

#[test]
fn empty_graph_cannot_execute() {
    let g: CompositorGraph<u8> = CompositorGraph::new();
    match g.execution_order() {
        Err(CompositorError::InvalidOperation(m)) => assert_eq!(m, "compositing graph is empty"),
        _ => panic!("expected an error"),
    }
}

#[test]
fn execution_order_reports_cycles_and_gaps() {
    let mut g: CompositorGraph<u8> = CompositorGraph::new();
    g.add_node(0, 1);
    g.add_node(1, 1);
    g.connect(1, 0, 0).unwrap();
    g.connect(0, 1, 0).unwrap();
    match g.execution_order() {
        Err(CompositorError::InvalidOperation(m)) => assert_eq!(m, "compositing graph contains a cycle"),
        _ => panic!("expected a cycle error"),
    }
    let mut h: CompositorGraph<u8> = CompositorGraph::new();
    h.add_node(0, 0);
    h.add_node(1, 1);
    match h.execution_order() {
        Err(CompositorError::InvalidOperation(m)) => assert_eq!(m, "node 1 has an unconnected input"),
        _ => panic!("expected an unconnected-input error"),
    }
}

#[test]
fn gpu_errors_carry_their_message() {
    match tpt_visual::error::_gpu_error("device lost") {
        CompositorError::Gpu(m) => assert_eq!(m, "device lost"),
        other => panic!("unexpected {other:?}"),
    }
}

#[test]
fn bgra_targets_swap_channels_in_the_final_blit() {
    assert_eq!(output_blit_mode(true), 1);
    assert_eq!(output_blit_mode(false), 0);
}
