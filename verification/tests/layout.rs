use ionize::engine::{plan, LEFT_DUMMY, RIGHT_DUMMY};
use ionize::err::{LayoutErr, OptErr, OptField};
use ionize::graph::{Flags, Graph, Id, Node, Size};
use ionize::opts::Opts;
use ionize::srcs::Srcs;
use ionize::validate::validate;

fn size(w: f64, h: f64) -> Size {
    Size::from_bits(w.to_bits(), h.to_bits())
}

fn add(graph: &mut Graph, w: f64, h: f64) -> Id {
    graph.add(Node::new(size(w, h)))
}

#[test]
fn srcs_promote_and_remove() {
    let mut srcs = Srcs::new(1);
    assert!(matches!(&srcs, Srcs::Inline(None)));
    srcs.add(2);
    srcs.add(2);
    assert_eq!(srcs.as_slice(), &[2]);

    srcs.add(3);
    assert!(matches!(&srcs, Srcs::Heap(_)));
    srcs.add(3);
    srcs.add(2);
    srcs.add(4);
    assert_eq!(srcs.as_slice(), &[2, 3, 4]);
    assert!(srcs.remove(3));
    assert_eq!(srcs.as_slice(), &[2, 4]);
    assert!(!srcs.remove(3));

    let mut inline = Srcs::new(0);
    inline.add(5);
    assert!(inline.remove(5));
    assert!(matches!(&inline, Srcs::Inline(None)));
    assert!(matches!(Srcs::new(2), Srcs::Heap(_)));
}

#[test]
fn rejects_unmarked_cycle() {
    let mut graph = Graph::new();
    let a = add(&mut graph, 1.0, 1.0);
    let b = add(&mut graph, 1.0, 1.0);
    graph.connect(a, b);
    graph.connect(b, a);

    assert_eq!(
        plan(&graph, &Opts::default()).err(),
        Some(LayoutErr::UnmarkedCycle(a))
    );
}

#[test]
fn cycle_names_the_first_node_met_on_the_stack() {
    let mut graph = Graph::new();
    let a = add(&mut graph, 1.0, 1.0);
    let b = add(&mut graph, 1.0, 1.0);
    let c = add(&mut graph, 1.0, 1.0);
    graph.connect(a, b);
    graph.connect(b, c);
    graph.connect(c, b);

    assert_eq!(
        plan(&graph, &Opts::default()).err(),
        Some(LayoutErr::UnmarkedCycle(b))
    );
}

#[test]
fn simple_chain_plans_every_block() {
    let mut graph = Graph::new();
    let a = add(&mut graph, 120.0, 48.0);
    let b = add(&mut graph, 120.0, 48.0);
    let c = add(&mut graph, 120.0, 48.0);
    graph.connect(a, b);
    graph.connect(b, c);
    graph.connect(a, c);

    let plan = plan(&graph, &Opts::default()).expect("a chain without loops plans");
    assert_eq!(plan.blocks.len(), 3);
    assert!(plan.blocks[a.index()].layer < plan.blocks[b.index()].layer);
    assert!(plan.blocks[b.index()].layer < plan.blocks[c.index()].layer);
    for block in &plan.blocks {
        assert!(block.layout_node.is_some());
    }
}

#[test]
fn rejects_rootless_loop() {
    let mut graph = Graph::new();
    let header = add(&mut graph, 1.0, 1.0);
    let backedge = add(&mut graph, 1.0, 1.0);
    graph.node_mut(header).flags = Flags::header();
    graph.node_mut(backedge).flags = Flags::backedge();
    graph.connect(header, backedge);
    graph.connect(backedge, header);

    assert_eq!(plan(&graph, &Opts::default()).err(), Some(LayoutErr::NoRoot));
}

#[test]
fn srcs_add_then_remove_restores() {
    let mut srcs = Srcs::new(4);
    srcs.add(7);
    srcs.add(9);
    let before = srcs.as_slice().to_vec();
    srcs.add(11);
    assert!(srcs.remove(11));
    assert_eq!(srcs.as_slice(), before.as_slice());
}

#[test]
fn default_options_validate() {
    let graph = Graph::new();
    assert_eq!(validate(&graph, &Opts::default()), Ok(()));
    let o = Opts::default();
    assert_eq!(f64::from_bits(o.padding), 20.0);
    assert_eq!(f64::from_bits(o.block_gap), 44.0);
    assert_eq!(f64::from_bits(o.first_port), 16.0);
    assert_eq!(f64::from_bits(o.port_gap), 60.0);
    assert_eq!(f64::from_bits(o.bend_radius), 12.0);
    assert_eq!(f64::from_bits(o.track_padding), 36.0);
    assert_eq!(f64::from_bits(o.joint_gap), 16.0);
    assert_eq!(f64::from_bits(o.header_drop), 16.0);
    assert_eq!(o.layout_iters, 2);
    assert_eq!(f64::from_bits(o.near_straight), 30.0);
    assert_eq!(o.comb_iters, 8);
    assert_eq!(f64::from_bits(o.line_width), 1.0);
    assert_eq!(f64::from_bits(o.arrow_size), 5.0);
}

#[test]
fn option_errors_in_check_order() {
    let graph = Graph::new();
    let mut o = Opts::default();
    o.block_gap = f64::NAN.to_bits();
    o.port_gap = (-1.0f64).to_bits();
    assert_eq!(
        validate(&graph, &o),
        Err(LayoutErr::InvalidOpt { field: OptField::BlockGap, err: OptErr::NonFinite })
    );
    o.block_gap = f64::INFINITY.to_bits();
    assert_eq!(
        validate(&graph, &o),
        Err(LayoutErr::InvalidOpt { field: OptField::BlockGap, err: OptErr::NonFinite })
    );
    o.block_gap = 3.0f64.to_bits();
    assert_eq!(
        validate(&graph, &o),
        Err(LayoutErr::InvalidOpt { field: OptField::PortGap, err: OptErr::Negative })
    );
    o.port_gap = (-0.0f64).to_bits();
    assert_eq!(validate(&graph, &o), Ok(()));
    o.track_padding = 12.0f64.to_bits();
    assert_eq!(
        validate(&graph, &o),
        Err(LayoutErr::InvalidOpt {
            field: OptField::TrackPadding,
            err: OptErr::NotGreaterThan(OptField::BendRadius)
        })
    );
}

#[test]
fn graph_errors() {
    let mut graph = Graph::new();
    let a = add(&mut graph, 1.0, 1.0);
    graph.node_mut(a).succs.push(Id::from_index(5));
    assert_eq!(
        validate(&graph, &Opts::default()),
        Err(LayoutErr::InvalidId { node: a, edge: Id::from_index(5) })
    );

    let mut graph = Graph::new();
    let a = add(&mut graph, 1.0, f64::NAN);
    assert_eq!(validate(&graph, &Opts::default()), Err(LayoutErr::InvalidGeom(a)));

    let mut graph = Graph::new();
    let a = add(&mut graph, 1.0, 1.0);
    let b = add(&mut graph, 1.0, 1.0);
    graph.node_mut(a).succs.push(b);
    assert_eq!(
        validate(&graph, &Opts::default()),
        Err(LayoutErr::NonReciprocal { from: a, to: b })
    );

    let mut graph = Graph::new();
    let a = add(&mut graph, 1.0, 1.0);
    graph.node_mut(a).flags = Flags::osr();
    assert_eq!(validate(&graph, &Opts::default()), Err(LayoutErr::MalformedOsr(a)));

    let mut graph = Graph::new();
    let a = add(&mut graph, 1.0, 1.0);
    graph.node_mut(a).flags = Flags::header() | Flags::backedge();
    assert_eq!(validate(&graph, &Opts::default()), Err(LayoutErr::MalformedHeader(a)));
}

#[test]
fn connect_keeps_predecessors_unique() {
    let mut graph = Graph::new();
    let a = add(&mut graph, 1.0, 1.0);
    let b = add(&mut graph, 1.0, 1.0);
    graph.connect(a, b);
    graph.connect(a, b);
    assert_eq!(graph.node(a).succs, vec![b, b]);
    assert_eq!(graph.node(b).preds, vec![a]);
    assert_eq!(graph.len(), 2);
    assert!(!graph.is_empty());
    assert_eq!(graph.ids(), vec![a, b]);
    assert_eq!(a.index(), 0);
    assert_eq!(b.index(), 1);
}

#[test]
fn built_graph_lists_agree() {
    let mut graph = Graph::new();
    let a = add(&mut graph, 1.0, 1.0);
    let b = add(&mut graph, 1.0, 1.0);
    graph.connect(a, b);
    let c = add(&mut graph, 1.0, 1.0);
    graph.connect(b, c);
    graph.connect(a, c);
    graph.connect(c, a);
    graph.connect(a, c);
    let ids = graph.ids();
    for &x in &ids {
        let preds = &graph.node(x).preds;
        for (i, p) in preds.iter().enumerate() {
            assert!(!preds[i + 1..].contains(p));
        }
        for &y in &ids {
            let forward = graph.node(x).succs.contains(&y);
            let backward = graph.node(y).preds.contains(&x);
            assert_eq!(forward, backward);
        }
    }
    assert_eq!(graph.node(c).preds, vec![b, a]);
    assert_eq!(graph.node(a).succs, vec![b, c, c]);
}

#[test]
fn get_mut_changes_one_node() {
    let mut graph = Graph::new();
    let a = add(&mut graph, 1.0, 1.0);
    graph.get_mut(a).unwrap().depth = 3;
    assert_eq!(graph.node(a).depth, 3);
    assert!(graph.get_mut(Id::from_index(4)).is_none());
    assert!(graph.get(Id::from_index(4)).is_none());
    assert_eq!(graph.get(a).unwrap().depth, 3);
}

#[test]
fn flags_combine() {
    let both = Flags::header() | Flags::osr();
    assert!(both.contains(Flags::header()));
    assert!(both.contains(Flags::osr()));
    assert!(!both.contains(Flags::backedge()));
    assert!(both.intersects(Flags::osr() | Flags::backedge()));
    assert!(!both.intersects(Flags::backedge()));
    assert_eq!(both & Flags::osr(), Flags::osr());
    assert_eq!(Flags::none(), Flags::default());
    let mut f = Flags::none();
    f |= Flags::backedge();
    f |= Flags::header();
    assert!(f.contains(Flags::header() | Flags::backedge()));
    f &= Flags::header();
    assert_eq!(f, Flags::header());
}

#[test]
fn plans_a_diamond() {
    let mut graph = Graph::new();
    let a = add(&mut graph, 10.0, 10.0);
    let b = add(&mut graph, 10.0, 10.0);
    let c = add(&mut graph, 10.0, 10.0);
    let d = add(&mut graph, 10.0, 10.0);
    graph.connect(a, b);
    graph.connect(a, c);
    graph.connect(b, d);
    graph.connect(c, d);
    let p = plan(&graph, &Opts::default()).unwrap();
    assert_eq!(p.blocks.len(), 4);
    assert_eq!(p.blocks[a.index()].layer, 0);
    assert_eq!(p.blocks[b.index()].layer, 1);
    assert_eq!(p.blocks[c.index()].layer, 1);
    assert_eq!(p.blocks[d.index()].layer, 2);
    assert_eq!(p.layers.len(), 3);
    assert!(plan(&Graph::new(), &Opts::default()).unwrap().nodes.is_empty());
}

#[test]
fn plan_links_follow_edges() {
    let mut graph = Graph::new();
    let a = add(&mut graph, 10.0, 10.0);
    let b = add(&mut graph, 10.0, 10.0);
    let c = add(&mut graph, 10.0, 10.0);
    graph.connect(a, b);
    graph.connect(a, c);
    graph.connect(b, c);
    let p = plan(&graph, &Opts::default()).unwrap();
    let succs = [vec![b.index(), c.index()], vec![c.index()], vec![]];
    for (block, targets) in succs.iter().enumerate() {
        let v = p.blocks[block].layout_node.unwrap();
        assert!(!p.nodes[v].is_dummy());
        assert_eq!(p.nodes[v].block, block);
        assert_eq!(p.nodes[v].dsts.len(), targets.len());
        for (port, &target) in targets.iter().enumerate() {
            assert_eq!(p.nodes[p.nodes[v].dsts[port]].block, target);
        }
    }
    let va = p.blocks[a.index()].layout_node.unwrap();
    let dummy = p.nodes[va].dsts[1];
    assert!(p.nodes[dummy].is_dummy());
    assert_eq!(p.nodes[dummy].dsts, vec![p.blocks[c.index()].layout_node.unwrap()]);
    assert_eq!(p.layers.len(), 3);
    assert_eq!(p.layers[1], vec![dummy, p.blocks[b.index()].layout_node.unwrap()]);
    assert_ne!(p.nodes[dummy].flags & LEFT_DUMMY, 0);
    assert_eq!(p.nodes[dummy].flags & RIGHT_DUMMY, 0);
    let vb = p.blocks[b.index()].layout_node.unwrap();
    assert_eq!(p.nodes[vb].flags & (LEFT_DUMMY | RIGHT_DUMMY), 0);
}

#[test]
fn forward_edges_go_down() {
    let mut graph = Graph::new();
    let ids: Vec<Id> = (0..6).map(|_| add(&mut graph, 10.0, 10.0)).collect();
    let edges = [(0, 1), (0, 2), (1, 3), (2, 3), (3, 4), (0, 4), (4, 5), (2, 5)];
    for &(a, b) in &edges {
        graph.connect(ids[a], ids[b]);
    }
    let p = plan(&graph, &Opts::default()).unwrap();
    let row_of = |block: usize| {
        let v = p.blocks[block].layout_node.unwrap();
        p.layers.iter().position(|layer| layer.contains(&v)).unwrap()
    };
    for &(a, b) in &edges {
        assert!(p.blocks[b].layer > p.blocks[a].layer, "edge {a} -> {b}");
        assert!(row_of(b) > row_of(a), "edge {a} -> {b}");
    }
    assert_eq!(p.blocks[0].layer, 0);
    assert_eq!(p.blocks[3].layer, 2);
    assert_eq!(p.blocks[5].layer, 4);
}

#[test]
fn plans_a_marked_loop() {
    let mut graph = Graph::new();
    let entry = add(&mut graph, 10.0, 10.0);
    let header = add(&mut graph, 10.0, 10.0);
    let body = add(&mut graph, 10.0, 10.0);
    let exit = add(&mut graph, 10.0, 10.0);
    graph.node_mut(header).flags = Flags::header();
    graph.node_mut(header).depth = 1;
    graph.node_mut(body).flags = Flags::backedge();
    graph.node_mut(body).depth = 1;
    graph.connect(entry, header);
    graph.connect(header, body);
    graph.connect(body, header);
    graph.connect(header, exit);
    let p = plan(&graph, &Opts::default()).unwrap();
    assert_eq!(p.blocks[entry.index()].layer, 0);
    assert_eq!(p.blocks[header.index()].layer, 1);
    assert_eq!(p.blocks[body.index()].backedge, None);
    assert_eq!(p.blocks[header.index()].backedge, Some(body.index()));
}

#[test]
fn layout_error_messages() {
    assert_eq!(
        LayoutErr::InvalidId { node: Id::from_index(3), edge: Id::from_index(12) }.message(),
        "node 3 refers to invalid node 12"
    );
    assert_eq!(LayoutErr::InvalidGeom(Id::from_index(0)).message(), "node 0 has an invalid size");
    assert_eq!(
        LayoutErr::InvalidOpt {
            field: OptField::TrackPadding,
            err: OptErr::NotGreaterThan(OptField::BendRadius)
        }
        .message(),
        "layout option `track_padding` must be greater than `bend_radius`"
    );
    assert_eq!(
        LayoutErr::InvalidOpt { field: OptField::Padding, err: OptErr::NonFinite }.message(),
        "layout option `padding` must be finite"
    );
    assert_eq!(
        LayoutErr::NonReciprocal { from: Id::from_index(1), to: Id::from_index(20) }.message(),
        "edge from node 1 to node 20 is not reciprocal"
    );
    assert_eq!(LayoutErr::NoRoot.message(), "non-empty graph has no layout root");
    assert_eq!(
        LayoutErr::UnmarkedCycle(Id::from_index(105)).message(),
        "unmarked cycle reaches node 105"
    );
    assert_eq!(OptErr::Negative.message(), "must be non-negative");
    assert_eq!(OptField::ArrowSize.name(), "arrow_size");
    assert_eq!(OptField::JointGap.name(), "joint_gap");
}

#[test]
fn plan_rejects_unreachable_loop() {
    let mut graph = Graph::new();
    let _root = add(&mut graph, 1.0, 1.0);
    let header = add(&mut graph, 1.0, 1.0);
    let backedge = add(&mut graph, 1.0, 1.0);
    graph.node_mut(header).flags = Flags::header();
    graph.node_mut(header).depth = 1;
    graph.node_mut(backedge).flags = Flags::backedge();
    graph.node_mut(backedge).depth = 1;
    graph.connect(header, backedge);
    graph.connect(backedge, header);
    assert_eq!(plan(&graph, &Opts::default()).err(), Some(LayoutErr::Unreachable(header)));
}

#[test]
fn plan_rejects_header_as_root() {
    let mut graph = Graph::new();
    let header = add(&mut graph, 1.0, 1.0);
    let body = add(&mut graph, 1.0, 1.0);
    let backedge = add(&mut graph, 1.0, 1.0);
    let osr = add(&mut graph, 1.0, 1.0);
    graph.node_mut(header).flags = Flags::header();
    graph.node_mut(backedge).flags = Flags::backedge();
    graph.node_mut(osr).flags = Flags::osr();
    for id in [header, body, backedge] {
        graph.node_mut(id).depth = 1;
    }
    graph.connect(header, body);
    graph.connect(body, backedge);
    graph.connect(backedge, header);
    graph.connect(osr, body);
    assert_eq!(plan(&graph, &Opts::default()).err(), Some(LayoutErr::MalformedHeader(header)));
}

#[test]
fn plan_rejects_osr_into_first_layer() {
    let mut graph = Graph::new();
    let entry = add(&mut graph, 1.0, 1.0);
    let next = add(&mut graph, 1.0, 1.0);
    let osr = add(&mut graph, 1.0, 1.0);
    graph.node_mut(osr).flags = Flags::osr();
    graph.connect(entry, next);
    graph.connect(osr, next);
    graph.connect(osr, entry);
    assert_eq!(plan(&graph, &Opts::default()).err(), Some(LayoutErr::MalformedOsr(osr)));
}

#[test]
fn plan_rejects_backedge_before_header() {
    let mut graph = Graph::new();
    let entry = add(&mut graph, 1.0, 1.0);
    let backedge = add(&mut graph, 1.0, 1.0);
    let header = add(&mut graph, 1.0, 1.0);
    graph.node_mut(header).flags = Flags::header();
    graph.node_mut(header).depth = 1;
    graph.node_mut(backedge).flags = Flags::backedge();
    graph.node_mut(backedge).depth = 1;
    graph.connect(entry, header);
    graph.connect(header, backedge);
    graph.connect(backedge, header);
    assert_eq!(plan(&graph, &Opts::default()).err(), Some(LayoutErr::MalformedBackedge(backedge)));
}

#[test]
fn roots_share_the_first_layer() {
    let mut graph = Graph::new();
    let a = add(&mut graph, 1.0, 1.0);
    let b = add(&mut graph, 1.0, 1.0);
    let c = add(&mut graph, 1.0, 1.0);
    let d = add(&mut graph, 1.0, 1.0);
    graph.connect(a, c);
    graph.connect(c, d);
    graph.connect(b, d);
    let p = plan(&graph, &Opts::default()).unwrap();
    assert_eq!(p.blocks[a.index()].layer, 0);
    assert_eq!(p.blocks[b.index()].layer, 0);
    assert_eq!(p.blocks[c.index()].layer, 1);
    assert_eq!(p.blocks[d.index()].layer, 2);
    let first: Vec<usize> = p.layers[0].iter().map(|&v| p.nodes[v].block).collect();
    assert!(first.contains(&a.index()) && first.contains(&b.index()));
}
