use rind::daemon::handle_client;
use rind::ipc::{decode_len, encode_len, frame_payload, Message, MessageType};
use rind::names::Name;
use rind::ser::UnitsSerialized;
use rind::services::{Service, ServiceState};
use rind::units::{Unit, Units};

#[test]
fn length_prefix_is_big_endian() {
    assert_eq!(encode_len(0x01020304), vec![1, 2, 3, 4]);
    assert_eq!(encode_len(0), vec![0, 0, 0, 0]);
    assert_eq!(encode_len(u32::MAX), vec![0xff, 0xff, 0xff, 0xff]);
    assert_eq!(decode_len(&vec![0, 0, 0, 5]), 5);
    assert_eq!(decode_len(&vec![1, 2, 3, 4]), 0x01020304);
}

#[test]
fn length_prefix_round_trips() {
    for n in [0u32, 1, 255, 256, 65535, 123456789, u32::MAX] {
        assert_eq!(decode_len(&encode_len(n)), n);
    }
}

#[test]
fn frame_is_prefix_then_payload() {
    let payload: Vec<u8> = b"hello".to_vec();
    let frame = frame_payload(&payload).expect("short payload frames fine");
    assert_eq!(frame, vec![0, 0, 0, 5, b'h', b'e', b'l', b'l', b'o']);
    let empty = frame_payload(&Vec::new()).expect("empty payload frames fine");
    assert_eq!(empty, vec![0, 0, 0, 0]);
}

#[test]
fn list_request_is_answered_with_snapshot() {
    let req = Message::from_type(MessageType::List);
    let resp = handle_client(&req, "snapshot-body".to_string());
    assert!(matches!(resp.kind, MessageType::List));
    assert_eq!(resp.payload, Some("snapshot-body".to_string()));
}

#[test]
fn unknown_request_is_answered_not_dropped() {
    let req = Message::from_type(MessageType::Unknown);
    let resp = handle_client(&req, "unused".to_string());
    assert!(matches!(resp.kind, MessageType::Unknown));
    assert!(resp.payload.is_none());
}

#[test]
fn envelope_builders_set_kind_and_payload() {
    let m = Message::from_type(MessageType::List);
    assert!(m.payload.is_none());
    let m = m.with("body".to_string());
    assert!(matches!(m.kind, MessageType::List));
    assert_eq!(m.payload, Some("body".to_string()));
}

fn demo_registry() -> Units {
    let mut units = Units::new();
    units.insert_unit(
        Name::new("a"),
        Unit {
            service: Some(vec![Service {
                name: "worker".to_string(),
                executable: "/bin/true".to_string(),
                args: vec!["-v".to_string()],
                restart: false,
                child: None,
                last_state: ServiceState::Inactive,
            }]),
            socket: None,
            mount: None,
        },
    );
    units.insert_unit(Name::new("b"), Unit { service: None, socket: None, mount: None });
    units.parse_enabled("a");
    units
}

#[test]
fn snapshot_sequences_have_equal_length_and_reparse() {
    let units = demo_registry();
    // What the daemon would hand out as each unit's serialized body.
    let bodies = vec![
        "[[service]]\nname = \"worker\"\nexec = \"/bin/true\"\nargs = [\"-v\"]\nrestart = false\n"
            .to_string(),
        "".to_string(),
    ];
    let snap = UnitsSerialized::from_registry(&units, bodies);
    assert_eq!(snap.units.len(), snap.names.len());
    assert_eq!(snap.names, vec!["a".to_string(), "b".to_string()]);
    assert_eq!(snap.enabled, vec!["a".to_string()]);
    // Every serialized unit re-parses successfully.
    for body in &snap.units {
        let value: toml::Value = toml::from_str(body).expect("unit body re-parses");
        assert!(value.is_table());
    }
    let first: toml::Value = toml::from_str(&snap.units[0]).unwrap();
    assert_eq!(
        first["service"][0]["name"].as_str(),
        Some("worker")
    );
}

#[test]
fn snapshot_rebuilds_registry_without_enabled_state() {
    let units = demo_registry();
    let bodies = vec!["one".to_string(), "two".to_string()];
    let snap = UnitsSerialized::from_registry(&units, bodies);

    // The receiver parses each body back into the declarative structure and
    // pairs it with its name by position.
    let parsed = vec![
        Unit {
            service: Some(vec![Service {
                name: "worker".to_string(),
                executable: "/bin/true".to_string(),
                args: vec!["-v".to_string()],
                restart: false,
                child: None,
                last_state: ServiceState::Inactive,
            }]),
            socket: None,
            mount: None,
        },
        Unit { service: None, socket: None, mount: None },
    ];
    let rebuilt = snap.to_units(parsed);
    assert_eq!(rebuilt.unit_count(), 2);
    // Per unit, counts of contained services and mounts can be derived.
    let a = rebuilt.unit("a").expect("unit a rebuilt");
    assert_eq!(a.service.as_ref().map_or(0, |s| s.len()), 1);
    assert_eq!(a.mount.as_ref().map_or(0, |m| m.len()), 0);
    let b = rebuilt.unit("b").expect("unit b rebuilt");
    assert!(b.service.is_none());
    // The enabled information in the snapshot is not reconstructed.
    assert!(rebuilt.enabled_names().is_empty());
    assert!(!rebuilt.is_enabled("a"));
}
