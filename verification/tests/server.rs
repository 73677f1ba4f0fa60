use world_core::json::JsonAtom;
use world_core::json::JsonNode;
use world_core::server_core::PacketOutcome;
use world_core::server_core::ServerCore;
use world_core::traits::ConnectHook;
use world_core::traits::EntityTrait;

struct TestEntity {
    x: i64,
    y: i64,
}

impl EntityTrait for TestEntity {
    fn to_json(&self, name: &str) -> Vec<(String, JsonNode)> {
        vec![(
            name.to_string(),
            JsonNode::Obj(vec![
                ("x".to_string(), JsonAtom::Int(self.x)),
                ("y".to_string(), JsonAtom::Int(self.y)),
            ]),
        )]
    }

    fn is_colliding(&self, _other: &TestEntity) -> bool {
        false
    }

    fn get_x_and_y(&self) -> (i64, i64) {
        (self.x, self.y)
    }

    fn get_class(&self) -> String {
        "TestEntity".to_string()
    }
}

struct CountingHook {
    calls: u64,
    next_pos: (i64, i64),
}

impl ConnectHook<TestEntity> for CountingHook {
    fn on_client_connect(&mut self, _addr: &str) -> TestEntity {
        self.calls += 1;
        TestEntity {
            x: self.next_pos.0,
            y: self.next_pos.1,
        }
    }
}

fn fresh_core() -> ServerCore<TestEntity, CountingHook> {
    let mut core = ServerCore::new();
    core.set_on_client_connect(CountingHook {
        calls: 0,
        next_pos: (10, 20),
    });
    core
}

fn hook_calls(core: &ServerCore<TestEntity, CountingHook>) -> u64 {
    core.hook.as_ref().map(|h| h.calls).unwrap_or(0)
}

#[test]
fn lifecycle_connect_heartbeat_disconnect() {
    let mut core = fresh_core();
    let t0: u64 = 100_000;

    // CONNECT from A creates playerA at the hook's default position
    let data = core.receive_events(vec![("A".to_string(), "CONNECT".to_string())], t0);
    assert_eq!(data.len(), 0);
    let player = core.get_player("A").expect("playerA registered");
    assert_eq!(player.get_position(), (10, 20));
    assert_eq!(core.tiles.get_entities_in_radius(10, 20, 0), vec!["playerA".to_string()]);

    // three heartbeats one second apart keep A alive through every sweep
    for k in 1..=3u64 {
        let now = t0 + k * 1000;
        core.receive_events(vec![("A".to_string(), "PACKETS".to_string())], now);
        let seen = *core.clients.get("A").expect("client record");
        assert_eq!(seen, now);
        core.check_clients(now);
        assert!(core.clients.get("A").is_some(), "A evicted during heartbeats");
    }
    assert_eq!(hook_calls(&core), 1);

    // DISCONNECT removes tile entry, registry entry and client record
    core.receive_events(vec![("A".to_string(), "DISCONNECT".to_string())], t0 + 4000);
    assert!(core.get_player("A").is_none());
    assert!(core.clients.get("A").is_none());
    assert!(core.tiles.get_entities_in_radius(10, 20, 0).is_empty());
    let (payload, _) = core.broadcast();
    assert!(!payload.contains("playerA"));
}

#[test]
fn unknown_address_connects_exactly_once_before_classification() {
    let mut core = fresh_core();
    // an arbitrary application payload from an unseen address still connects
    let data = core.receive_events(
        vec![("B".to_string(), "whatever|payload".to_string())],
        5_000,
    );
    assert_eq!(hook_calls(&core), 1);
    assert!(core.get_player("B").is_some());
    assert_eq!(
        data.get("B").map(|s| s.clone()),
        Some("whatever|payload".to_string())
    );
    // the address is now known: no second connect
    core.receive_events(vec![("B".to_string(), "more|data".to_string())], 6_000);
    assert_eq!(hook_calls(&core), 1);
}

#[test]
fn missing_hook_drops_the_packet() {
    let mut core: ServerCore<TestEntity, CountingHook> = ServerCore::new();
    let out = core.handle_packet(&"C".to_string(), &"CONNECT".to_string(), 1_000);
    assert!(matches!(out, PacketOutcome::NoHook));
    assert!(core.clients.get("C").is_none());
    let data = core.receive_events(vec![("C".to_string(), "stuff".to_string())], 2_000);
    assert_eq!(data.len(), 0);
}

#[test]
fn sweep_evicts_exactly_the_stale_clients() {
    let mut core = fresh_core();
    let base: u64 = 50_000;
    core.receive_events(
        vec![
            ("A".to_string(), "CONNECT".to_string()),
            ("B".to_string(), "CONNECT".to_string()),
            ("C".to_string(), "CONNECT".to_string()),
        ],
        base,
    );
    // refresh B at base + 2s, C at base + 4s
    core.receive_events(vec![("B".to_string(), "PACKETS".to_string())], base + 2000);
    core.receive_events(vec![("C".to_string(), "PACKETS".to_string())], base + 4000);

    // at base + 4s: A is exactly 4s old (evicted), B is 2s old, C fresh
    core.check_clients(base + 4000);
    assert!(core.clients.get("A").is_none());
    assert!(core.get_player("A").is_none());
    assert!(core.clients.get("B").is_some());
    assert!(core.clients.get("C").is_some());
    // the sweep cleaned A's tile entry exactly as a disconnect would
    let at_tile = core.tiles.get_entities_in_radius(10, 20, 0);
    assert!(!at_tile.contains(&"playerA".to_string()));
    assert!(at_tile.contains(&"playerB".to_string()));
    assert!(at_tile.contains(&"playerC".to_string()));

    // refreshing a client to "now" right before the sweep saves it
    core.receive_events(vec![("B".to_string(), "PACKETS".to_string())], base + 7000);
    core.check_clients(base + 7000);
    assert!(core.clients.get("B").is_some());
    // C last seen base + 4s: 3s old, still alive
    assert!(core.clients.get("C").is_some());
    core.check_clients(base + 9000);
    assert!(core.clients.get("B").is_some());
    assert!(core.clients.get("C").is_none());
}

#[test]
fn broadcast_aggregates_all_projections() {
    let mut core = fresh_core();
    assert!(core
        .entities
        .insert("playerA".to_string(), TestEntity { x: 10, y: 20 }));
    assert!(core
        .entities
        .insert("playerB".to_string(), TestEntity { x: 40, y: 40 }));
    assert!(core.clients.insert("A".to_string(), 1_000));
    assert!(core.clients.insert("B".to_string(), 1_000));

    let (payload, recipients) = core.broadcast();
    assert_eq!(
        payload,
        "LIBRARYEVENT|{\"playerA\":{\"x\":10,\"y\":20},\"playerB\":{\"x\":40,\"y\":40}}"
    );
    assert_eq!(recipients, vec!["A".to_string(), "B".to_string()]);

    // the body after the frame tag is plain JSON
    let body = &payload["LIBRARYEVENT|".len()..];
    let parsed: serde_json::Value = serde_json::from_str(body).expect("valid JSON");
    let obj = parsed.as_object().expect("object");
    assert_eq!(obj.len(), 2);
    assert_eq!(obj["playerA"]["x"], serde_json::Value::from(10));
    assert_eq!(obj["playerA"]["y"], serde_json::Value::from(20));
    assert_eq!(obj["playerB"]["x"], serde_json::Value::from(40));
    assert_eq!(obj["playerB"]["y"], serde_json::Value::from(40));
}

#[test]
fn broadcast_escapes_and_signs() {
    let mut core = fresh_core();
    assert!(core.entities.insert(
        "a\"b\\c\n".to_string(),
        TestEntity { x: -5, y: -160 }
    ));
    let (payload, _) = core.broadcast();
    let body = &payload["LIBRARYEVENT|".len()..];
    assert_eq!(body, "{\"a\\\"b\\\\c\\n\":{\"x\":-5,\"y\":-160}}");
    let parsed: serde_json::Value = serde_json::from_str(body).expect("valid JSON");
    assert_eq!(parsed["a\"b\\c\n"]["x"], serde_json::Value::from(-5));
}

#[test]
fn last_application_packet_per_address_wins() {
    let mut core = fresh_core();
    let data = core.receive_events(
        vec![
            ("D".to_string(), "first|1".to_string()),
            ("D".to_string(), "second|2".to_string()),
            ("E".to_string(), "only|e".to_string()),
        ],
        9_000,
    );
    assert_eq!(data.len(), 2);
    assert_eq!(data.get("D").map(|s| s.clone()), Some("second|2".to_string()));
    assert_eq!(data.get("E").map(|s| s.clone()), Some("only|e".to_string()));
}

#[test]
fn command_tags_are_the_first_field() {
    let mut core = fresh_core();
    // a heartbeat with trailing fields is still a heartbeat
    let out = core.handle_packet(&"F".to_string(), &"PACKETS|x|y".to_string(), 100);
    assert!(matches!(out, PacketOutcome::Handled));
    // an empty payload and a near-miss tag are application data
    let out = core.handle_packet(&"F".to_string(), &"".to_string(), 101);
    assert!(matches!(out, PacketOutcome::Data(_)));
    let out = core.handle_packet(&"F".to_string(), &"PACKETSX|y".to_string(), 102);
    assert!(matches!(out, PacketOutcome::Data(_)));
}

#[test]
fn set_on_client_connect_replaces_the_hook() {
    let mut core = fresh_core();
    core.set_on_client_connect(CountingHook {
        calls: 0,
        next_pos: (30, 40),
    });
    core.receive_events(vec![("R".to_string(), "CONNECT".to_string())], 1_000);
    // the replacement hook, not the first one, built the entity
    let player = core.get_player("R").expect("playerR registered");
    assert_eq!(player.get_position(), (30, 40));
    assert_eq!(hook_calls(&core), 1);
}

#[test]
fn known_sender_data_surfaces_without_a_hook() {
    let mut core: ServerCore<TestEntity, CountingHook> = ServerCore::new();
    assert!(core.clients.insert("K".to_string(), 500));
    let data = core.receive_events(vec![("K".to_string(), "app|x".to_string())], 1_000);
    assert_eq!(data.get("K").map(|s| s.clone()), Some("app|x".to_string()));
}

#[test]
fn entity_capability_reports() {
    let a = TestEntity { x: 7, y: 8 };
    let b = TestEntity { x: 7, y: 8 };
    assert_eq!(a.get_x_and_y(), (7, 8));
    // get_position defaults to get_x_and_y
    assert_eq!(a.get_position(), (7, 8));
    assert!(!a.is_colliding(&b));
    assert_eq!(a.get_class(), "TestEntity");
    let proj = a.to_json("playerZ");
    assert_eq!(proj.len(), 1);
    assert_eq!(proj[0].0, "playerZ");
}

#[test]
fn transform_holds_its_position() {
    let t = world_core::data_types::Transform::new(3, -4);
    assert_eq!(t.position, (3, -4));
}
