use bars_client::config::{
    Aerodrome, Block, BlockCondition, BlockState, Config, Edge, EdgeCondition, EdgeState, Element,
    ElementCondition, Node, NodeCondition, NodeConjunction, NodeExpression, NodeState, Preset,
    Profile, Ref, ResetCondition,
};

fn rich_aerodrome() -> Aerodrome {
    Aerodrome {
        icao: "EDDB".to_string(),
        elements: vec![
            Element { id: "E1".to_string(), condition: ElementCondition::Fixed(true) },
            Element { id: "E2".to_string(), condition: ElementCondition::Node(Ref::new(0)) },
            Element { id: "E3".to_string(), condition: ElementCondition::Edge(Ref::new(0)) },
        ],
        nodes: vec![
            Node { id: "N1".to_string(), scratchpad: Some("sp".to_string()), parent: None },
            Node { id: "N2".to_string(), scratchpad: None, parent: Some(Ref::new(0)) },
        ],
        edges: vec![Edge],
        blocks: vec![Block {
            id: "B1".to_string(),
            nodes: vec![Ref::new(0)],
            edges: vec![Ref::new(0)],
            non_routes: vec![bars_client::config::BlockRoute {
                from: Ref::new(1),
                to: Ref::new(1),
            }],
            stands: vec!["S1".to_string()],
        }],
        profiles: vec![Profile {
            id: "P1".to_string(),
            name: "day".to_string(),
            nodes: vec![
                NodeCondition::Direct { reset: ResetCondition::TimeSecs(45) },
                NodeCondition::Router { sticky: true },
            ],
            edges: vec![
                EdgeCondition::Direct {
                    nodes: NodeExpression {
                        disjunction: vec![NodeConjunction {
                            positive: vec![Ref::new(0)],
                            negative: vec![Ref::new(1)],
                        }],
                    },
                },
            ],
            blocks: vec![BlockCondition { reset: ResetCondition::Never }],
            presets: vec![Preset {
                name: "night".to_string(),
                nodes: vec![(Ref::new(0), NodeState::Off)],
                blocks: vec![(Ref::new(0), BlockState::Route((Ref::new(0), Ref::new(1))))],
            }],
        }],
    }
}

#[test]
fn aerodrome_round_trip() {
    let a = rich_aerodrome();
    let bytes = a.encode();
    let b = Aerodrome::decode(&bytes).expect("decode");
    assert_eq!(b, a);
}

#[test]
fn aerodrome_decode_rejects_garbage() {
    assert!(Aerodrome::decode(&vec![0xde, 0xad, 0xbe, 0xef]).is_none());
    assert!(Aerodrome::decode(&vec![]).is_none());
}

#[test]
fn container_round_trip() {
    let c = Config {
        name: Some("pack".to_string()),
        version: Some("1.2".to_string()),
        aerodromes: vec![rich_aerodrome()],
    };
    let bytes = c.save();
    // The framed container starts with the exact magic and version bytes.
    assert_eq!(&bytes[..8], b"\xffBARS\x13eu");
    assert_eq!(&bytes[8..10], &[0x00, 0x01]);
    let d = Config::load(&bytes).expect("load");
    assert_eq!(d, c);
}

#[test]
fn container_rejects_bad_magic() {
    let c = Config { name: None, version: None, aerodromes: vec![] };
    let mut bytes = c.save();
    bytes[0] = 0x00;
    assert_eq!(Config::load(&bytes), Err(bars_client::codec::LoadError::BadMagic));
}

#[test]
fn container_rejects_bad_version() {
    let c = Config { name: None, version: None, aerodromes: vec![] };
    let mut bytes = c.save();
    bytes[9] = 0x77;
    assert_eq!(Config::load(&bytes), Err(bars_client::codec::LoadError::BadVersion));
}

#[test]
fn container_rejects_corrupt_body() {
    let c = Config { name: None, version: None, aerodromes: vec![] };
    let mut bytes = c.save();
    let last = bytes.len() - 1;
    bytes[last] ^= 0xff;
    bytes.truncate(11);
    assert_eq!(Config::load(&bytes), Err(bars_client::codec::LoadError::BadData));
}

#[test]
fn round_trip_carriers() {
    let a = rich_aerodrome();
    assert_eq!(a.round_trip(), Some(a.clone()));
    let c = Config { name: None, version: Some("v".to_string()), aerodromes: vec![a] };
    assert_eq!(c.round_trip(), Ok(c.clone()));
}
