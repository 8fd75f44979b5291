use npcs::{
    parse_address, ServerAddress, ServerDirectory, StatusBoard, ServerStatus,
    parse_status_response, parse_slp_json, status_from_counts, resolve_placeholders,
    has_placeholders, write_varint, Viewpoint, find_npc_in_crosshair, Npc, NpcLocation,
    MoveHandler, InteractHandler, NpcRegistry, RemoveExecutor, RemoveOutcome, ServerAddExecutor,
    ServerAddOutcome, LookNearExecutor,
};

fn loc(x: i64, y: i64, z: i64) -> NpcLocation {
    NpcLocation { x, y, z, yaw: 0, pitch: 0 }
}

fn npc_at(id: u32, l: NpcLocation) -> Npc {
    Npc {
        id,
        name: format!("n{id}"),
        uuid: 0,
        entity_id: -(1000 + id as i32),
        location: l,
        skin: None,
        look_at_nearest: false,
        holograms: vec![],
        server: None,
    }
}

#[test]
fn addresses_parse_exactly_in_canonical_form() {
    let ad = parse_address("127.0.0.1:25565").unwrap();
    assert_eq!((ad.a, ad.b, ad.c, ad.d, ad.port), (127, 0, 0, 1, 25565));
    assert_eq!(parse_address("255.255.255.255:65535").unwrap().port, 65535);
    assert!(parse_address("1.2.3.4").is_none()); // no port
    assert!(parse_address("1.2.3:4").is_none()); // three octets
    assert!(parse_address("1.2.3.4.5:6").is_none()); // five octets
    assert!(parse_address("256.0.0.1:1").is_none()); // octet too large
    assert!(parse_address("01.2.3.4:5").is_none()); // leading zero
    assert!(parse_address("1.2.3.4:65536").is_none()); // port too large
    assert!(parse_address("1.2.3.4:1:2").is_none()); // two colons
    assert!(parse_address("example.com:25565").is_none()); // not numeric
}

#[test]
fn directory_sorts_and_replaces() {
    let mut dir = ServerDirectory::new();
    let ad1 = ServerAddress { a: 10, b: 0, c: 0, d: 1, port: 1 };
    let ad2 = ServerAddress { a: 10, b: 0, c: 0, d: 2, port: 2 };
    dir.add_server("zeta".to_string(), ad1);
    dir.add_server("alpha".to_string(), ad2);
    assert!(dir.has_server("zeta"));
    assert!(!dir.has_server("beta"));
    let board = StatusBoard::new();
    let listing = dir.list_servers(&board);
    assert_eq!(listing.len(), 2);
    assert_eq!(listing[0].0, "alpha");
    assert_eq!(listing[1].0, "zeta");
    // replacing an address keeps one entry per name
    dir.add_server("zeta".to_string(), ad2);
    assert_eq!(dir.list_servers(&board).len(), 2);
    assert!(dir.remove_server("zeta"));
    assert!(!dir.remove_server("zeta"));
    assert_eq!(dir.list_servers(&board).len(), 1);
}

#[test]
fn board_defaults_to_offline_and_is_replaced_whole() {
    let mut board = StatusBoard::new();
    let missing = board.get("lobby");
    assert!(!missing.online);
    assert_eq!((missing.players_online, missing.players_max), (0, 0));
    board.replace(vec![(
        "lobby".to_string(),
        ServerStatus { online: true, players_online: 3, players_max: 20 },
    )]);
    assert!(board.get("lobby").online);
    // the next cycle's snapshot replaces the whole map; absent names fall
    // back to offline rather than stale data
    board.replace(vec![]);
    assert!(!board.get("lobby").online);
}

#[test]
fn mismatched_packet_tag_reads_as_no_document() {
    let json = br#"{"players":{"online":3,"max":20}}"#;
    let mut resp: Vec<u8> = Vec::new();
    write_varint(&mut resp, (json.len() + 2) as i32);
    write_varint(&mut resp, 1); // wrong tag: status response is 0
    write_varint(&mut resp, json.len() as i32);
    resp.extend_from_slice(json);
    assert!(parse_status_response(&resp).is_none());

    let mut good: Vec<u8> = Vec::new();
    write_varint(&mut good, (json.len() + 2) as i32);
    write_varint(&mut good, 0);
    write_varint(&mut good, json.len() as i32);
    good.extend_from_slice(json);
    let (from, to) = parse_status_response(&good).unwrap();
    let st = parse_slp_json(&good[from..to]).unwrap();
    assert!(st.online);
    assert_eq!(st.players_online, 3);
    assert_eq!(st.players_max, 20);
}

#[test]
fn malformed_documents_read_as_offline() {
    assert!(parse_slp_json(b"not json").is_none());
    assert!(parse_slp_json(b"{}").is_none());
    assert!(parse_slp_json(br#"{"players":{"online":"three"}}"#).is_none());
    let st = status_from_counts(7, 100);
    assert!(st.online);
    assert_eq!((st.players_online, st.players_max), (7, 100));
}

#[test]
fn placeholders_resolve_against_a_snapshot() {
    let up = ServerStatus { online: true, players_online: 3, players_max: 20 };
    let down = ServerStatus { online: false, players_online: 9, players_max: 9 };
    assert_eq!(
        resolve_placeholders("{status} {online}/{max}", &up),
        "\u{a7}aOnline 3/20"
    );
    assert_eq!(
        resolve_placeholders("{status} {online}/{max}", &down),
        "\u{a7}cOffline 0/0"
    );
    // text with no brace comes back unmodified
    assert_eq!(resolve_placeholders("Lobby Server", &up), "Lobby Server");
    assert!(has_placeholders("players: {online}"));
    assert!(!has_placeholders("players online"));
    assert!(!has_placeholders("{unknown}"));
}

#[test]
fn crosshair_picks_the_direct_candidate() {
    // viewer at the origin looking straight along +z
    let v = Viewpoint { x: 0, y: 0, z: 0, lx: 0, ly: 0, lz: 1000 };
    // candidate aim points sit 0.9 blocks above the feet
    let direct = npc_at(1, loc(0, -900, 5000));
    let off_axis = npc_at(2, loc(3214, -900, 3830)); // about 40 degrees off
    let picked = find_npc_in_crosshair(&v, &vec![off_axis.clone(), direct.clone()]);
    assert_eq!(picked, Some(1));
    // too close and too far are never selected, whatever the angle
    let too_close = npc_at(3, loc(0, -900, 50));
    let too_far = npc_at(4, loc(0, -900, 40000));
    assert_eq!(find_npc_in_crosshair(&v, &vec![too_close, too_far]), None);
    // the off-axis candidate alone is outside the cone
    assert_eq!(find_npc_in_crosshair(&v, &vec![off_axis]), None);
}

#[test]
fn move_handler_turns_only_flagged_proxies_in_range() {
    let mut reg = NpcRegistry::new();
    reg.create("near".to_string(), loc(0, 0, 0), None);
    reg.create("far".to_string(), loc(100_000, 0, 0), None);
    reg.create("unflagged".to_string(), loc(1000, 0, 0), None);
    reg.toggle_look_at_nearest(1);
    reg.toggle_look_at_nearest(2);
    let to_turn = MoveHandler::npcs_to_turn(&reg, 5000, 5000);
    assert_eq!(to_turn.len(), 1);
    assert_eq!(to_turn[0].id, 1);
}

#[test]
fn interact_handler_transfers_only_linked_proxies() {
    let mut reg = NpcRegistry::new();
    let a = reg.create("a".to_string(), loc(0, 0, 0), None);
    assert_eq!(InteractHandler::transfer_target(&reg, a.entity_id, true), None);
    reg.set_server(a.id, Some("lobby".to_string()));
    assert_eq!(
        InteractHandler::transfer_target(&reg, a.entity_id, true).as_deref(),
        Some("lobby")
    );
    assert_eq!(InteractHandler::transfer_target(&reg, a.entity_id, false), None);
    assert_eq!(InteractHandler::transfer_target(&reg, -9, true), None);
}

#[test]
fn command_outcomes() {
    let mut reg = NpcRegistry::new();
    reg.create("a".to_string(), loc(0, -900, 5000), None);
    match RemoveExecutor::run(&mut reg, "nope") {
        RemoveOutcome::InvalidId => {},
        _ => panic!("expected an invalid id"),
    }
    match RemoveExecutor::run(&mut reg, "9") {
        RemoveOutcome::NotFound(id) => assert_eq!(id, 9),
        _ => panic!("expected not found"),
    }
    let mut dir = ServerDirectory::new();
    match ServerAddExecutor::run(&mut dir, "lobby".to_string(), "not an address") {
        ServerAddOutcome::InvalidAddress => {},
        _ => panic!("expected an invalid address"),
    }
    match ServerAddExecutor::run(&mut dir, "lobby".to_string(), "10.0.0.1:25565") {
        ServerAddOutcome::Added(ad) => assert_eq!(ad.port, 25565),
        _ => panic!("expected a registration"),
    }
    // flip the facing flag of the proxy under the crosshair
    let v = Viewpoint { x: 0, y: 0, z: 0, lx: 0, ly: 0, lz: 1000 };
    let flipped = LookNearExecutor::run(&mut reg, &v);
    assert_eq!(flipped, Some((1, true)));
    match RemoveExecutor::run(&mut reg, "1") {
        RemoveOutcome::Removed(n) => assert_eq!(n.name, "a"),
        _ => panic!("expected a removal"),
    }
}

#[test]
fn servers_snapshot_round_trips() {
    let mut dir = ServerDirectory::new();
    dir.add_server(
        "lobby".to_string(),
        ServerAddress { a: 10, b: 0, c: 0, d: 1, port: 25565 },
    );
    dir.add_server(
        "arena".to_string(),
        ServerAddress { a: 192, b: 168, c: 1, d: 7, port: 80 },
    );
    let s1 = dir.save();
    let mut loaded = ServerDirectory::new();
    assert_eq!(loaded.load(s1.as_str()), 2);
    assert_eq!(loaded.save(), s1);
    let board = StatusBoard::new();
    let listing = loaded.list_servers(&board);
    assert_eq!(listing[0].0, "arena");
    assert_eq!(listing[1].0, "lobby");
    assert_eq!(listing[1].1.port, 25565);
    // a malformed snapshot registers nothing
    let mut empty = ServerDirectory::new();
    assert_eq!(empty.load("[lobby]\naddress = \"nonsense\"\n\n"), 0);
    assert_eq!(empty.load("garbage"), 0);
}

#[test]
fn publish_refreshes_pick_placeholder_labels_of_linked_records() {
    let mut board = StatusBoard::new();
    board.replace(vec![(
        "lobby".to_string(),
        ServerStatus { online: true, players_online: 3, players_max: 20 },
    )]);
    let mut linked = npc_at(1, loc(0, 0, 0));
    linked.server = Some("lobby".to_string());
    linked.holograms.push(npcs::HologramLine {
        text: "Lobby".to_string(),
        entity_id: -2001,
    });
    linked.holograms.push(npcs::HologramLine {
        text: "{status} {online}/{max}".to_string(),
        entity_id: -2002,
    });
    let mut unlinked = npc_at(2, loc(0, 0, 0));
    unlinked.holograms.push(npcs::HologramLine {
        text: "{online}".to_string(),
        entity_id: -2003,
    });
    let refreshes = npcs::hologram_refreshes(&vec![linked.clone(), unlinked], &board);
    // only the linked record's placeholder line is re-rendered
    assert_eq!(refreshes.len(), 1);
    assert_eq!(refreshes[0].0, -2002);
    assert_eq!(refreshes[0].1, "\u{a7}aOnline 3/20");
    // rendered texts for a whole record, plain lines untouched
    let texts = npcs::rendered_label_texts(&linked, &board);
    assert_eq!(texts, vec!["Lobby".to_string(), "\u{a7}aOnline 3/20".to_string()]);
}
