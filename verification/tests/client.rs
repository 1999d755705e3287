use bars_client::client::{Client, ConfigError};
use bars_client::config::{Aerodrome, Element, ElementCondition, Node, NodeCondition, Profile, Ref, ResetCondition};
use bars_client::protocol::{ActivityState, Downstream, Patch, Upstream};

fn tiny_config() -> Aerodrome {
    Aerodrome {
        icao: "EGLL".to_string(),
        elements: vec![Element {
            id: "E1".to_string(),
            condition: ElementCondition::Node(Ref::new(0)),
        }],
        nodes: vec![Node { id: "N1".to_string(), scratchpad: None, parent: None }],
        edges: vec![],
        blocks: vec![],
        profiles: vec![Profile {
            id: "P1".to_string(),
            name: "p".to_string(),
            nodes: vec![NodeCondition::Direct { reset: ResetCondition::Never }],
            edges: vec![],
            blocks: vec![],
            presets: vec![],
        }],
    }
}

#[test]
fn config_message_tracks_aerodrome() {
    let mut c = Client::new();
    let data = tiny_config().encode();
    let r = c.apply_message(Downstream::Config { data }).expect("ok");
    assert_eq!(r, (None, None));
    assert!(c.aerodrome(&"EGLL".to_string()).is_some());
}

#[test]
fn garbage_config_is_fatal() {
    let mut c = Client::new();
    let r = c.apply_message(Downstream::Config { data: vec![9, 9, 9] });
    assert_eq!(r, Err(ConfigError::Undecodable));
}

#[test]
fn ill_formed_config_is_fatal() {
    // No profiles: structurally decodable but rejected by the invariant check.
    let mut bad = tiny_config();
    bad.profiles = vec![];
    let mut c = Client::new();
    let r = c.apply_message(Downstream::Config { data: bad.encode() });
    assert_eq!(r, Err(ConfigError::IllFormed));
}

#[test]
fn control_and_error_messages() {
    let mut c = Client::new();
    let data = tiny_config().encode();
    c.apply_message(Downstream::Config { data }).unwrap();
    c.apply_message(Downstream::Control { icao: "EGLL".to_string(), control: true }).unwrap();
    assert_eq!(c.aerodrome(&"EGLL".to_string()).unwrap().state(), ActivityState::Controlling);
    let (msg, reply) = c
        .apply_message(Downstream::Error {
            icao: "EGLL".to_string(),
            message: Some("boom".to_string()),
            disconnect: true,
        })
        .unwrap();
    assert_eq!(msg, Some("server: EGLL: boom".to_string()));
    assert_eq!(reply, Some(Upstream::Track { icao: "EGLL".to_string(), track: false }));
    assert!(c.aerodrome(&"EGLL".to_string()).is_none());
}

#[test]
fn tick_flushes_operator_changes() {
    let mut c = Client::new();
    let data = tiny_config().encode();
    c.apply_message(Downstream::Config { data }).unwrap();
    let icao = "EGLL".to_string();
    c.aerodrome_mut(&icao).unwrap().set_node(0, true, 0);
    let out = c.tick(0);
    assert_eq!(out.len(), 2);
    match &out[0] {
        Upstream::Patch { icao: i, patch } => {
            assert_eq!(i, "EGLL");
            assert_eq!(patch.nodes, vec![("N1".to_string(), true)]);
        }
        other => panic!("unexpected message {:?}", other),
    }
    match &out[1] {
        Upstream::Scenery { icao: i, scenery } => {
            assert_eq!(i, "EGLL");
            assert_eq!(scenery, &vec![("E1".to_string(), true)]);
        }
        other => panic!("unexpected message {:?}", other),
    }
    // Nothing left: the next tick sends nothing.
    assert!(c.tick(1).is_empty());
}

#[test]
fn pending_settles_via_server_patch() {
    let mut c = Client::new();
    let data = tiny_config().encode();
    c.apply_message(Downstream::Config { data }).unwrap();
    let icao = "EGLL".to_string();
    c.aerodrome_mut(&icao).unwrap().set_node(0, true, 0);
    let _ = c.tick(0);
    let patch = Patch { profile: None, nodes: vec![("N1".to_string(), true)], blocks: vec![] };
    c.apply_message(Downstream::Patch { icao: icao.clone(), patch }).unwrap();
    let a = c.aerodrome(&icao).unwrap();
    assert!(a.nodes[0].pending.is_none());
    assert!(a.nodes[0].current);
}

#[test]
fn set_tracking_and_controlling() {
    let mut c = Client::new();
    let data = tiny_config().encode();
    c.apply_message(Downstream::Config { data }).unwrap();
    let m = c.set_controlling("EGLL".to_string(), true);
    assert_eq!(m, Some(Upstream::Control { icao: "EGLL".to_string(), control: true }));
    assert_eq!(c.set_controlling("ZZZZ".to_string(), true), None);
    let t = c.set_tracking("EGLL".to_string(), false);
    assert_eq!(t, Upstream::Track { icao: "EGLL".to_string(), track: false });
    assert!(c.aerodrome(&"EGLL".to_string()).is_none());
}

#[test]
fn aircraft_membership() {
    let mut c = Client::new();
    let data = tiny_config().encode();
    c.apply_message(Downstream::Config { data }).unwrap();
    c.apply_message(Downstream::Aircraft {
        icao: "EGLL".to_string(),
        aircraft: vec!["BAW123".to_string()],
    })
    .unwrap();
    let a = c.aerodrome(&"EGLL".to_string()).unwrap();
    assert!(a.is_pilot_enabled(&"BAW123".to_string()));
    assert!(!a.is_pilot_enabled(&"DLH456".to_string()));
}
