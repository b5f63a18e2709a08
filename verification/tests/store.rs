use kod_core::ecs::{ComponentHandle, Entity, COMPONENT_TYPES};
use kod_core::game_state::GameState;
use kod_core::networking::{EventType, Networking, NetworkingCreationInfo};
use kod_core::pad_to_multiple_of_256;

type Store = GameState<u64, u64>;

#[test]
fn entity_ids_are_monotonic_without_gaps() {
    let mut gs = Store::new();
    let mut ids = Vec::new();
    for k in 0..5 {
        ids.push(gs.create_entity(format!("entity {k}")));
    }
    assert_eq!(ids, vec![0, 1, 2, 3, 4]);
    assert_eq!(gs.next_entity_id, 5);
    for k in 0..5u32 {
        let e = gs.get_entity(k as usize).unwrap();
        assert_eq!(e.id, k);
        assert_eq!(e.name, format!("entity {k}"));
    }
    assert!(gs.get_entity(5).is_none());
}

#[test]
fn dual_lists_stay_consistent() {
    let mut gs = Store::new();
    let e0 = gs.create_entity("a".to_string()) as usize;
    let e1 = gs.create_entity("b".to_string()) as usize;
    gs.add_component(e0, 10, 0);
    gs.add_component(e1, 11, 0);
    gs.add_component(e0, 12, 0);
    gs.add_component(e1, 13, 1);
    // Per-type values in call order, owners in call order.
    assert_eq!(gs.get_components(0), vec![10, 11, 12]);
    assert_eq!(gs.get_entities_with(0), vec![0, 1, 0]);
    assert_eq!(gs.get_components(1), vec![13]);
    assert_eq!(gs.get_entities_with(1), vec![1]);
    // The entities' handle lists point back into the per-type lists.
    assert_eq!(
        gs.entities[e0].components,
        vec![
            ComponentHandle { component_type: 0, index: 0 },
            ComponentHandle { component_type: 0, index: 2 },
        ]
    );
    assert_eq!(
        gs.entities[e1].components,
        vec![
            ComponentHandle { component_type: 0, index: 1 },
            ComponentHandle { component_type: 1, index: 0 },
        ]
    );
}

#[test]
fn get_component_finds_the_first_of_its_type() {
    let mut gs = Store::new();
    let e = gs.create_entity("a".to_string()) as usize;
    gs.add_component(e, 21, 0);
    gs.add_component(e, 22, 0);
    assert_eq!(gs.get_component(e, 0), Some(21));
    assert_eq!(gs.get_component(e, 1), None);
    // Entity-level scan yields the handle of the first match.
    let h = gs.entities[e].get_component(0).unwrap();
    assert_eq!(h, ComponentHandle { component_type: 0, index: 0 });
    assert!(gs.entities[e].get_component(1).is_none());
}

#[test]
fn set_component_updates_the_first_match_in_place() {
    let mut gs = Store::new();
    let e = gs.create_entity("a".to_string()) as usize;
    gs.add_component(e, 21, 0);
    gs.add_component(e, 22, 0);
    assert!(gs.set_component(e, 0, 99));
    assert_eq!(gs.get_components(0), vec![99, 22]);
    // No component of that type: nothing changes.
    assert!(!gs.set_component(e, 1, 5));
    assert_eq!(gs.get_components(1), Vec::<u64>::new());
}

#[test]
fn set_component_at_updates_by_position() {
    let mut gs = Store::new();
    let e = gs.create_entity("a".to_string()) as usize;
    gs.add_component(e, 21, 0);
    gs.add_component(e, 22, 0);
    gs.set_component_at(0, 1, 77);
    assert_eq!(gs.get_components(0), vec![21, 77]);
    assert_eq!(gs.get_entities_with(0), vec![0, 0]);
}

#[test]
fn resource_singleton_lookup() {
    let mut gs = Store::new();
    gs.add_resource(1, 111);
    gs.add_resource(3, 333);
    assert_eq!(gs.get_resource(1), Some(&111));
    assert_eq!(gs.get_resource(3), Some(&333));
    assert_eq!(gs.get_resource(2), None);
}

#[test]
fn resource_lookup_is_fifo_on_duplicate_keys() {
    let mut gs = Store::new();
    gs.add_resource(7, 1);
    gs.add_resource(7, 2);
    // Linear scan returns the first match, the newest does not shadow it.
    assert_eq!(gs.get_resource(7), Some(&1));
    assert!(gs.set_resource(7, 9));
    assert_eq!(gs.get_resource(7), Some(&9));
    assert!(!gs.set_resource(8, 5));
    assert_eq!(gs.get_resource(8), None);
}

#[test]
fn close_sets_the_stop_flag_only() {
    let mut gs = Store::new();
    gs.create_entity("a".to_string());
    assert!(!gs.should_close);
    gs.close();
    assert!(gs.should_close);
    assert_eq!(gs.entities.len(), 1);
}

#[test]
fn wildcard_token_is_the_component_type_count() {
    assert_eq!(Store::get_component_type(), COMPONENT_TYPES);
    assert_eq!(COMPONENT_TYPES, 2);
}

#[test]
fn entity_new_starts_empty() {
    let e = Entity::new(4, "player".to_string());
    assert_eq!(e.id, 4);
    assert_eq!(e.name, "player");
    assert!(e.components.is_empty());
}

#[test]
fn networking_defaults_and_construction() {
    let info = NetworkingCreationInfo::default();
    assert_eq!(info.max_players, 32);
    assert_eq!(info.max_synced_objects, 1024);
    assert_eq!(info.packet_per_frame_limit, 64);
    let mut n = Networking::new(NetworkingCreationInfo {
        max_players: 8,
        ..NetworkingCreationInfo::default()
    });
    assert_eq!(n.max_players, 8);
    assert_eq!(n.max_synced_objects, 1024);
    assert_eq!(n.packet_per_frame_limit, 64);
    assert!(!n.connected);
    n.update();
    assert!(!n.connected);
    assert_eq!(Networking::get_component_type(), 1);
}

#[test]
fn event_type_is_a_plain_copy_token() {
    let e = EventType::PlayerJoin;
    let copy = e;
    assert!(matches!(copy, EventType::PlayerJoin));
    assert_eq!(EventType::EntityCreate, EventType::EntityCreate);
    assert_ne!(EventType::EntityDelete, EventType::Event);
}

#[test]
fn pad_to_multiple_of_256_rounds_up() {
    assert_eq!(pad_to_multiple_of_256(0), 0);
    assert_eq!(pad_to_multiple_of_256(1), 256);
    assert_eq!(pad_to_multiple_of_256(255), 256);
    assert_eq!(pad_to_multiple_of_256(256), 256);
    assert_eq!(pad_to_multiple_of_256(257), 512);
    assert_eq!(pad_to_multiple_of_256(1920), 2048);
    assert_eq!(pad_to_multiple_of_256(2048), 2048);
}
