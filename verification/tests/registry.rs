use lobby_registry::rooms::{Member, RegisterError, Room, Rooms};

fn member(game: &str) -> Member {
    Member {
        nickname: String::new(),
        username: String::new(),
        game_name: game.to_string(),
        avatar_url: String::new(),
        game_id: 0,
    }
}

fn room(name: &str, game: &str) -> Room {
    Room {
        external_guid: String::new(),
        id: String::new(),
        address: None,
        name: name.to_string(),
        description: String::new(),
        owner: String::new(),
        port: 24872,
        preferred_game_name: game.to_string(),
        preferred_game_id: 1,
        max_players: 8,
        net_version: 1,
        has_password: false,
        players: Vec::new(),
    }
}

fn id_of(r: &Room) -> u128 {
    uuid::Uuid::parse_str(&r.id).unwrap().as_u128()
}

#[test]
fn create_assigns_identifier_into_both_fields() {
    let mut reg = Rooms::new(vec![]);
    let stored = reg.create(room("alpha", "g"), 1, 100).unwrap();
    assert_eq!(stored.external_guid, stored.id);
    assert_eq!(stored.id.len(), 36);
    let parsed = uuid::Uuid::parse_str(&stored.id).unwrap();
    assert_eq!(parsed.to_string(), stored.id);
}

#[test]
fn create_fills_missing_address_with_registrant() {
    let mut reg = Rooms::new(vec![]);
    let stored = reg.create(room("alpha", "g"), 77, 100).unwrap();
    assert_eq!(stored.address, Some(77));
}

#[test]
fn create_keeps_declared_address() {
    let mut reg = Rooms::new(vec![]);
    let mut candidate = room("alpha", "g");
    candidate.address = Some(5);
    let stored = reg.create(candidate, 77, 100).unwrap();
    assert_eq!(stored.address, Some(5));
}

#[test]
fn create_then_delete_restores_prior_state() {
    let mut reg = Rooms::new(vec![]);
    let keeper = reg.create(room("keep", "g"), 1, 100).unwrap();
    let stored = reg.create(room("gone", "g"), 1, 100).unwrap();
    assert_eq!(reg.usage.current_count(1), 2);
    let removed = reg.remove(id_of(&stored)).unwrap();
    assert_eq!(removed.name, "gone");
    assert_eq!(reg.usage.current_count(1), 1);
    let listed = reg.list();
    assert_eq!(listed.len(), 1);
    assert_eq!(listed[0].name, "keep");
    let _ = keeper;
}

#[test]
fn remove_unknown_id_is_a_noop() {
    let mut reg = Rooms::new(vec![]);
    let _ = reg.create(room("alpha", "g"), 1, 100).unwrap();
    assert!(reg.remove(424242).is_none());
    assert_eq!(reg.list().len(), 1);
    assert_eq!(reg.usage.current_count(1), 1);
}

#[test]
fn delete_uses_owner_identity_not_declared_address() {
    let mut reg = Rooms::new(vec![]);
    let mut candidate = room("alpha", "g");
    candidate.address = Some(999);
    let stored = reg.create(candidate, 7, 100).unwrap();
    assert_eq!(reg.usage.current_count(7), 1);
    assert_eq!(reg.usage.current_count(999), 0);
    let _ = reg.remove(id_of(&stored)).unwrap();
    assert_eq!(reg.usage.current_count(7), 0);
}

#[test]
fn refresh_updates_players_and_timestamp() {
    let mut reg = Rooms::new(vec![]);
    let stored = reg.create(room("alpha", "g"), 1, 100).unwrap();
    let id = id_of(&stored);
    assert!(reg.refresh(id, vec![member("g"), member("g")], 150).is_ok());
    let listed = reg.list();
    assert_eq!(listed[0].players.len(), 2);
    assert_eq!(listed[0].name, "alpha");
}

#[test]
fn refresh_unknown_id_reports_not_found() {
    let mut reg = Rooms::new(vec![]);
    assert!(reg.refresh(31337, vec![], 150).is_err());
    assert_eq!(reg.list().len(), 0);
}

#[test]
fn sweep_removes_exactly_the_stale_records() {
    let mut reg = Rooms::new(vec![]);
    let stale = reg.create(room("stale", "g"), 1, 100).unwrap();
    let fresh = reg.create(room("fresh", "g"), 2, 100).unwrap();
    assert!(reg.refresh(id_of(&fresh), vec![], 150).is_ok());
    // At now == 160 with a 60 second timeout, the unrefreshed room's age is
    // exactly at the boundary and goes; the refreshed one stays.
    reg.remove_timed_out_lobbies(160, 60);
    let listed = reg.list();
    assert_eq!(listed.len(), 1);
    assert_eq!(listed[0].name, "fresh");
    assert_eq!(reg.usage.current_count(1), 0);
    assert_eq!(reg.usage.current_count(2), 1);
    let _ = stale;
}

#[test]
fn refresh_just_before_the_boundary_prevents_removal() {
    let mut reg = Rooms::new(vec![]);
    let stored = reg.create(room("alpha", "g"), 1, 100).unwrap();
    assert!(reg.refresh(id_of(&stored), vec![], 159).is_ok());
    reg.remove_timed_out_lobbies(160, 60);
    assert_eq!(reg.list().len(), 1);
}

#[test]
fn future_timestamps_never_expire() {
    let mut reg = Rooms::new(vec![]);
    let _ = reg.create(room("alpha", "g"), 1, 500).unwrap();
    reg.remove_timed_out_lobbies(100, 60);
    assert_eq!(reg.list().len(), 1);
}

#[test]
fn lowering_the_limit_evicts_down_to_it() {
    let mut reg = Rooms::new(vec![]);
    for n in 0..5 {
        let _ = reg.create(room(&format!("r{n}"), "g"), 1, 100).unwrap();
    }
    let other = reg.create(room("other", "g"), 2, 100).unwrap();
    reg.add_and_apply_limit(1, 3);
    assert_eq!(reg.usage.current_count(1), 3);
    assert_eq!(reg.usage.current_count(2), 1);
    let listed = reg.list();
    assert_eq!(listed.len(), 4);
    assert!(listed.iter().any(|r| r.name == "other"));
    let _ = other;
}

#[test]
fn raising_the_limit_evicts_nothing() {
    let mut reg = Rooms::new(vec![]);
    let _ = reg.create(room("a", "g"), 1, 100).unwrap();
    let _ = reg.create(room("b", "g"), 1, 100).unwrap();
    reg.add_and_apply_limit(1, 10);
    assert_eq!(reg.list().len(), 2);
    assert_eq!(reg.usage.current_count(1), 2);
    let extra = reg.create(room("c", "g"), 1, 100);
    assert!(extra.is_ok());
}

#[test]
fn quota_scenario_end_to_end() {
    // Default limit 5: A fills it, a sixth create fails and changes nothing.
    let mut reg = Rooms::new(vec![]);
    let a: u128 = 10;
    let mut ids = Vec::new();
    for n in 0..5 {
        let stored = reg.create(room(&format!("r{n}"), "g"), a, 100).unwrap();
        ids.push(id_of(&stored));
    }
    let sixth = reg.create(room("r5", "g"), a, 100);
    assert!(matches!(sixth, Err(RegisterError::QuotaExceeded)));
    assert_eq!(reg.list().len(), 5);
    assert_eq!(reg.usage.current_count(a), 5);

    // Lowering the limit to 3 evicts exactly two of A's rooms.
    reg.add_and_apply_limit(a, 3);
    assert_eq!(reg.list().len(), 3);
    assert_eq!(reg.usage.current_count(a), 3);

    // Deleting one remaining room drops the count to 2. Probe the known ids
    // until one of the three survivors is hit.
    let mut removed_one = false;
    for id in &ids {
        if reg.remove(*id).is_some() {
            removed_one = true;
            break;
        }
    }
    assert!(removed_one);
    assert_eq!(reg.usage.current_count(a), 2);

    // A sweep past the timeout removes the remaining two and drops A's entry.
    reg.remove_timed_out_lobbies(1000, 60);
    assert_eq!(reg.list().len(), 0);
    assert_eq!(reg.usage.current_count(a), 0);
    assert_eq!(reg.usage.usage_count_by_ip.entries.len(), 0);
}

#[test]
fn sweeping_an_empty_registry_is_a_noop() {
    let mut reg = Rooms::new(vec![]);
    reg.remove_timed_out_lobbies(1000, 1);
    assert_eq!(reg.list().len(), 0);
}

#[test]
fn game_name_reads_the_game_label() {
    let r = room("alpha", "cool-game");
    assert_eq!(r.game_name(), "cool-game");
}
