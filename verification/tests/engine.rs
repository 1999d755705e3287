use bars_client::client::Aerodrome as Engine;
use bars_client::config::{
    Aerodrome, Block, BlockCondition, BlockState, Edge, EdgeCondition, EdgeState, Element,
    ElementCondition, Node, NodeCondition, NodeExpression, NodeState, Preset, Profile, Ref,
    ResetCondition,
};
use bars_client::protocol::{BlockState as WireBlockState, Patch};

fn node(id: &str) -> Node {
    Node { id: id.to_string(), scratchpad: None, parent: None }
}

fn profile(
    id: &str,
    nodes: Vec<NodeCondition>,
    edges: Vec<EdgeCondition>,
    blocks: Vec<BlockCondition>,
    presets: Vec<Preset>,
) -> Profile {
    Profile { id: id.to_string(), name: id.to_string(), nodes, edges, blocks, presets }
}

fn direct(reset: ResetCondition) -> NodeCondition {
    NodeCondition::Direct { reset }
}

fn single_stopbar(reset: ResetCondition) -> Aerodrome {
    Aerodrome {
        icao: "TEST".to_string(),
        elements: vec![Element {
            id: "E1".to_string(),
            condition: ElementCondition::Node(Ref::new(0)),
        }],
        nodes: vec![node("N1")],
        edges: vec![],
        blocks: vec![],
        profiles: vec![profile("P1", vec![direct(reset)], vec![], vec![], vec![])],
    }
}

#[test]
fn single_stopbar_toggle() {
    let cfg = single_stopbar(ResetCondition::Never);
    assert!(cfg.wf_check());
    let mut a = Engine::new(cfg);
    a.set_node(0, false, 0);
    let (patch, scenery) = a.take_pending();
    assert_eq!(patch.nodes, vec![("N1".to_string(), false)]);
    assert_eq!(scenery, vec![("E1".to_string(), false)]);
    // The server echoes the prediction; it settles and the next flush is empty.
    let echo = Patch { profile: None, nodes: vec![("N1".to_string(), false)], blocks: vec![] };
    a.apply_patch(&echo);
    assert!(a.nodes[0].pending.is_none());
    let (patch2, scenery2) = a.take_pending();
    assert!(patch2.is_empty());
    assert!(scenery2.is_empty());
}

#[test]
fn auto_reset() {
    let cfg = single_stopbar(ResetCondition::TimeSecs(5));
    let mut a = Engine::new(cfg);
    a.set_node(0, false, 0);
    let (patch, scenery) = a.take_pending();
    assert_eq!(patch.nodes, vec![("N1".to_string(), false)]);
    assert_eq!(scenery, vec![("E1".to_string(), false)]);
    // Nothing fires before the deadline.
    a.tick(4_999);
    let (p_mid, s_mid) = a.take_pending();
    assert!(p_mid.is_empty());
    assert!(s_mid.is_empty());
    // At t = 5.001 s the node comes back on.
    a.tick(5_001);
    let (p2, s2) = a.take_pending();
    assert_eq!(p2.nodes, vec![("N1".to_string(), true)]);
    assert_eq!(s2, vec![("E1".to_string(), true)]);
}

fn preset_config() -> Aerodrome {
    let preset = Preset {
        name: "P".to_string(),
        nodes: vec![(Ref::new(0), NodeState::Off), (Ref::new(1), NodeState::On)],
        blocks: vec![(Ref::new(0), BlockState::Relax)],
    };
    Aerodrome {
        icao: "TEST".to_string(),
        elements: vec![],
        nodes: vec![node("N1"), node("N2")],
        edges: vec![],
        blocks: vec![Block {
            id: "B1".to_string(),
            nodes: vec![Ref::new(0), Ref::new(1)],
            edges: vec![],
            non_routes: vec![],
            stands: vec![],
        }],
        profiles: vec![profile(
            "P1",
            vec![direct(ResetCondition::TimeSecs(4)), direct(ResetCondition::Never)],
            vec![],
            vec![BlockCondition { reset: ResetCondition::Never }],
            vec![preset],
        )],
    }
}

#[test]
fn preset_application() {
    let cfg = preset_config();
    assert!(cfg.wf_check());
    let mut a = Engine::new(cfg);
    // Prior pending state, later replaced (not merged) by the preset.
    a.set_node(0, false, 0);
    assert_eq!(a.node_timers.len(), 1);
    a.apply_preset(0);
    let (patch, _) = a.take_pending();
    assert_eq!(patch.nodes, vec![("N1".to_string(), false), ("N2".to_string(), true)]);
    assert_eq!(patch.blocks, vec![("B1".to_string(), WireBlockState::Relax)]);
    assert!(patch.profile.is_none());
    assert_eq!(a.node_timers.len(), 0);
    assert_eq!(a.block_timers.len(), 0);
}

#[test]
fn preset_out_of_range_index_is_noop() {
    let cfg = preset_config();
    let mut a = Engine::new(cfg);
    a.apply_preset(7);
    let (patch, scenery) = a.take_pending();
    assert!(patch.is_empty());
    assert!(scenery.is_empty());
}

fn simple_route_config() -> Aerodrome {
    Aerodrome {
        icao: "TEST".to_string(),
        elements: vec![],
        nodes: vec![node("N1"), node("N2")],
        edges: vec![],
        blocks: vec![Block {
            id: "B1".to_string(),
            nodes: vec![Ref::new(0), Ref::new(1)],
            edges: vec![],
            non_routes: vec![],
            stands: vec![],
        }],
        profiles: vec![profile(
            "P1",
            vec![
                NodeCondition::Router { sticky: false },
                NodeCondition::Router { sticky: false },
            ],
            vec![],
            vec![BlockCondition { reset: ResetCondition::Never }],
            vec![],
        )],
    }
}

#[test]
fn simple_route() {
    let cfg = simple_route_config();
    assert!(cfg.wf_check());
    let mut a = Engine::new(cfg);
    a.set_route((0, 1), 0);
    let (patch, _) = a.take_pending();
    assert_eq!(
        patch.blocks,
        vec![("B1".to_string(), WireBlockState::Route("N1".to_string(), "N2".to_string()))]
    );
}

#[test]
fn route_needs_router_nodes() {
    let cfg = preset_config();
    let mut a = Engine::new(cfg);
    // Both endpoints are direct nodes here, so nothing happens.
    a.set_route((0, 1), 0);
    let (patch, _) = a.take_pending();
    assert!(patch.blocks.is_empty());
}

fn cascade_config() -> Aerodrome {
    Aerodrome {
        icao: "TEST".to_string(),
        elements: vec![],
        nodes: vec![node("N1"), node("T"), node("N2")],
        edges: vec![],
        blocks: vec![
            Block {
                id: "B1".to_string(),
                nodes: vec![Ref::new(0), Ref::new(1)],
                edges: vec![],
                non_routes: vec![],
                stands: vec![],
            },
            Block {
                id: "B2".to_string(),
                nodes: vec![Ref::new(1), Ref::new(2)],
                edges: vec![],
                non_routes: vec![],
                stands: vec![],
            },
        ],
        profiles: vec![profile(
            "P1",
            vec![
                NodeCondition::Router { sticky: false },
                NodeCondition::Fixed { state: NodeState::Off },
                NodeCondition::Router { sticky: false },
            ],
            vec![],
            vec![
                BlockCondition { reset: ResetCondition::Never },
                BlockCondition { reset: ResetCondition::Never },
            ],
            vec![],
        )],
    }
}

#[test]
fn block_cascade_through_transparent_node() {
    let cfg = cascade_config();
    assert!(cfg.wf_check());
    let mut a = Engine::new(cfg);
    let state = BlockState::Route((Ref::new(0), Ref::new(1)));
    a.set_block(0, state, 0);
    let (patch, _) = a.take_pending();
    let expected = WireBlockState::Route("N1".to_string(), "T".to_string());
    let mut blocks = patch.blocks.clone();
    blocks.sort_by(|x, y| x.0.cmp(&y.0));
    assert_eq!(
        blocks,
        vec![("B1".to_string(), expected.clone()), ("B2".to_string(), expected)]
    );
}

#[test]
fn cascade_idempotence() {
    let cfg = cascade_config();
    let mut a = Engine::new(cfg);
    let state = BlockState::Route((Ref::new(0), Ref::new(1)));
    a.set_block(0, state, 0);
    let once = a.blocks.clone();
    a.set_block(0, state, 0);
    assert_eq!(a.blocks, once);
}

fn profile_reload_config() -> Aerodrome {
    Aerodrome {
        icao: "TEST".to_string(),
        elements: vec![
            Element { id: "E1".to_string(), condition: ElementCondition::Fixed(true) },
            Element { id: "E2".to_string(), condition: ElementCondition::Node(Ref::new(0)) },
            Element { id: "E3".to_string(), condition: ElementCondition::Edge(Ref::new(0)) },
        ],
        nodes: vec![node("N1")],
        edges: vec![Edge],
        blocks: vec![],
        profiles: vec![profile(
            "P1",
            vec![direct(ResetCondition::TimeSecs(9))],
            vec![EdgeCondition::Fixed { state: EdgeState::Off }],
            vec![],
            vec![],
        )],
    }
}

#[test]
fn profile_reload_full_refresh() {
    let cfg = profile_reload_config();
    assert!(cfg.wf_check());
    let mut a = Engine::new(cfg);
    a.set_profile(0);
    let (patch, scenery) = a.take_pending();
    assert_eq!(patch.profile, Some("P1".to_string()));
    let mut sc = scenery.clone();
    sc.sort_by(|x, y| x.0.cmp(&y.0));
    assert_eq!(
        sc,
        vec![
            ("E1".to_string(), true),
            ("E2".to_string(), true),
            ("E3".to_string(), false),
        ]
    );
}

#[test]
fn out_of_range_profile_is_noop() {
    let cfg = profile_reload_config();
    let mut a = Engine::new(cfg);
    a.set_profile(3);
    let (patch, scenery) = a.take_pending();
    assert!(patch.is_empty());
    assert!(scenery.is_empty());
}

#[test]
fn contradiction_wipes_timer() {
    let cfg = single_stopbar(ResetCondition::TimeSecs(5));
    let mut a = Engine::new(cfg);
    a.set_node(0, false, 0);
    assert_eq!(a.node_timers.len(), 1);
    // The server asserts the opposite of the prediction: the timer dies and
    // the prediction stays outstanding.
    let patch = Patch { profile: None, nodes: vec![("N1".to_string(), true)], blocks: vec![] };
    a.apply_patch(&patch);
    assert_eq!(a.node_timers.len(), 0);
    assert_eq!(a.nodes[0].pending, Some(false));
    assert_eq!(a.nodes[0].current, true);
}

#[test]
fn router_node_state_follows_blocks() {
    let cfg = simple_route_config();
    let mut a = Engine::new(cfg);
    // A clear block leaves the router node lit.
    assert!(a.node_state(0));
    // A relaxing block unlights it.
    a.set_block(0, BlockState::Relax, 0);
    assert!(!a.node_state(0));
    // Routing through the node unlights it too.
    a.set_block(0, BlockState::Route((Ref::new(0), Ref::new(1))), 0);
    assert!(!a.node_state(0));
}

#[test]
fn unknown_patch_ids_are_dropped() {
    let cfg = single_stopbar(ResetCondition::Never);
    let mut a = Engine::new(cfg);
    let patch = Patch {
        profile: Some("NOPE".to_string()),
        nodes: vec![("GHOST".to_string(), true)],
        blocks: vec![("B9".to_string(), WireBlockState::Relax)],
    };
    a.apply_patch(&patch);
    assert_eq!(a.profile(), 0);
    assert_eq!(a.nodes[0].current, false);
}

#[test]
fn direct_edge_expression() {
    // One edge lit exactly when N1 is on and N2 is off.
    let expr = NodeExpression {
        disjunction: vec![bars_client::config::NodeConjunction {
            positive: vec![Ref::new(0)],
            negative: vec![Ref::new(1)],
        }],
    };
    let cfg = Aerodrome {
        icao: "TEST".to_string(),
        elements: vec![],
        nodes: vec![node("N1"), node("N2")],
        edges: vec![Edge],
        blocks: vec![],
        profiles: vec![profile(
            "P1",
            vec![direct(ResetCondition::Never), direct(ResetCondition::Never)],
            vec![EdgeCondition::Direct { nodes: expr }],
            vec![],
            vec![],
        )],
    };
    assert!(cfg.wf_check());
    let mut a = Engine::new(cfg);
    assert!(!a.edge_state(0));
    a.set_node(0, true, 0);
    assert!(a.edge_state(0));
    a.set_node(1, true, 0);
    assert!(!a.edge_state(0));
}

#[test]
fn scenery_covers_only_touched_nodes() {
    let cfg = Aerodrome {
        icao: "TEST".to_string(),
        elements: vec![
            Element { id: "E1".to_string(), condition: ElementCondition::Node(Ref::new(0)) },
            Element { id: "E2".to_string(), condition: ElementCondition::Node(Ref::new(1)) },
        ],
        nodes: vec![node("N1"), node("N2")],
        edges: vec![],
        blocks: vec![],
        profiles: vec![profile(
            "P1",
            vec![direct(ResetCondition::Never), direct(ResetCondition::Never)],
            vec![],
            vec![],
            vec![],
        )],
    };
    let mut a = Engine::new(cfg);
    a.set_node(1, true, 0);
    let (_, scenery) = a.take_pending();
    assert_eq!(scenery, vec![("E2".to_string(), true)]);
}

#[test]
fn router_edge_follows_block_state() {
    // One router edge over B1 whose allowed routes contain (N1, N2) only.
    let cfg = Aerodrome {
        icao: "TEST".to_string(),
        elements: vec![],
        nodes: vec![node("N1"), node("N2")],
        edges: vec![Edge],
        blocks: vec![Block {
            id: "B1".to_string(),
            nodes: vec![Ref::new(0), Ref::new(1)],
            edges: vec![Ref::new(0)],
            non_routes: vec![],
            stands: vec![],
        }],
        profiles: vec![profile(
            "P1",
            vec![
                NodeCondition::Router { sticky: false },
                NodeCondition::Router { sticky: false },
            ],
            vec![EdgeCondition::Router {
                block: Ref::new(0),
                routes: vec![bars_client::config::BlockRoute {
                    from: Ref::new(0),
                    to: Ref::new(1),
                }],
            }],
            vec![BlockCondition { reset: ResetCondition::Never }],
            vec![],
        )],
    };
    assert!(cfg.wf_check());
    let mut a = Engine::new(cfg);
    // Clear block: edge off. Relaxed: on.
    assert!(!a.edge_state(0));
    a.set_block(0, BlockState::Relax, 0);
    assert!(a.edge_state(0));
    // Routing along the allowed direction: on; against it: off.
    a.set_block(0, BlockState::Route((Ref::new(0), Ref::new(1))), 0);
    assert!(a.edge_state(0));
    a.set_block(0, BlockState::Route((Ref::new(1), Ref::new(0))), 0);
    assert!(!a.edge_state(0));
}

#[test]
fn block_auto_reset_clears() {
    let mut cfg = cascade_config();
    cfg.profiles[0].blocks[0].reset = ResetCondition::TimeSecs(3);
    cfg.profiles[0].blocks[1].reset = ResetCondition::TimeSecs(3);
    let mut a = Engine::new(cfg);
    a.set_block(0, BlockState::Relax, 0);
    let _ = a.take_pending();
    a.tick(3_500);
    let (patch, _) = a.take_pending();
    let mut blocks = patch.blocks.clone();
    blocks.sort_by(|x, y| x.0.cmp(&y.0));
    assert_eq!(
        blocks,
        vec![
            ("B1".to_string(), WireBlockState::Clear),
            ("B2".to_string(), WireBlockState::Clear),
        ]
    );
}
