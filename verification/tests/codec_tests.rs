use npcs::{
    angle_byte, write_varint, write_varint_u32, read_varint_at, build_team_packet,
    build_head_rot, build_entity_rot, build_remove_entities, build_remove_info,
    build_spawn_entity, build_skin_meta, build_hologram_meta, build_name_meta, MetaKeys,
    hologram_y_millis, build_status_request, ServerAddress, Npc, NpcLocation, render_u32,
    parse_u32_str,
};

fn keys() -> MetaKeys {
    MetaKeys {
        flags_index: 0,
        custom_name_index: 2,
        name_visible_index: 3,
        no_gravity_index: 5,
        stand_flags_index: 15,
        skin_parts_index: 17,
        byte_type: 0,
        bool_type: 8,
        opt_text_type: 6,
    }
}

fn npc(name: &str, entity_id: i32) -> Npc {
    Npc {
        id: 1,
        name: name.to_string(),
        uuid: 0x00112233445566778899AABBCCDDEEFF,
        entity_id,
        location: NpcLocation { x: 0, y: 0, z: 0, yaw: 0, pitch: 0 },
        skin: None,
        look_at_nearest: false,
        holograms: vec![],
        server: None,
    }
}

#[test]
fn varint_encodings_match_the_protocol() {
    let mut b = Vec::new();
    write_varint(&mut b, 0);
    assert_eq!(b, vec![0]);
    b.clear();
    write_varint(&mut b, 127);
    assert_eq!(b, vec![0x7F]);
    b.clear();
    write_varint(&mut b, 128);
    assert_eq!(b, vec![0x80, 0x01]);
    b.clear();
    write_varint(&mut b, 300);
    assert_eq!(b, vec![0xAC, 0x02]);
    b.clear();
    write_varint(&mut b, -1);
    assert_eq!(b, vec![0xFF, 0xFF, 0xFF, 0xFF, 0x0F]);
}

#[test]
fn varint_decoding_round_trips_and_rejects_overlong() {
    for v in [0u32, 1, 127, 128, 300, 25565, 0xFFFF_FFFF] {
        let mut b = Vec::new();
        write_varint_u32(&mut b, v);
        b.push(0xAB); // trailing noise is left alone
        let (got, end) = read_varint_at(&b, 0).unwrap();
        assert_eq!(got, v);
        assert_eq!(end, b.len() - 1);
    }
    // five continuation bytes: malformed
    let overlong = vec![0x80u8, 0x80, 0x80, 0x80, 0x80];
    assert!(read_varint_at(&overlong, 0).is_none());
    // runs off the end
    let truncated = vec![0x80u8, 0x80];
    assert!(read_varint_at(&truncated, 0).is_none());
}

#[test]
fn angle_bytes_match_the_known_points() {
    assert_eq!(angle_byte(0), 0);
    assert_eq!(angle_byte(1800), 128);
    assert_eq!(angle_byte(3599), 255);
    // a negative angle lands on the same byte as its positive twin
    assert_eq!(angle_byte(-900), angle_byte(2700));
    assert_eq!(angle_byte(-900), 192);
    assert_eq!(angle_byte(3600), angle_byte(0));
}

#[test]
fn team_packet_is_assembled_field_by_field() {
    let n = npc("Bob", -1000);
    let got = build_team_packet(94, &n);
    let mut want: Vec<u8> = Vec::new();
    want.push(94); // packet id
    want.push(9); // team name length
    want.extend_from_slice(b"npc_-1000");
    want.push(0); // mode: create
    want.extend_from_slice(&[0x08, 0, 0]); // empty display name
    want.push(0); // friendly flags
    want.push(1); // name tag visibility: never
    want.push(1); // collision rule: never
    want.push(21); // color: reset
    want.extend_from_slice(&[0x08, 0, 0]); // empty prefix
    want.extend_from_slice(&[0x08, 0, 0]); // empty suffix
    want.push(1); // one member
    want.push(3);
    want.extend_from_slice(b"Bob");
    assert_eq!(got, want);
}

#[test]
fn rotation_and_removal_packets() {
    assert_eq!(build_head_rot(72, -1000, 192), {
        let mut w = vec![72];
        w.extend_from_slice(&[0x98, 0xF8, 0xFF, 0xFF, 0x0F]); // -1000
        w.push(192);
        w
    });
    let rot = build_entity_rot(78, 5, 10, 20);
    assert_eq!(rot, vec![78, 5, 10, 20, 1]);
    let rm = build_remove_entities(70, &vec![5, 6]);
    assert_eq!(rm, vec![70, 2, 5, 6]);
    let ri = build_remove_info(71, 0x000102030405060708090A0B0C0D0E0F);
    let mut want = vec![71, 1];
    want.extend_from_slice(&[0, 1, 2, 3, 4, 5, 6, 7, 8, 9, 10, 11, 12, 13, 14, 15]);
    assert_eq!(ri, want);
}

#[test]
fn spawn_packet_layout() {
    let got = build_spawn_entity(1, 7, 0x10, 148, 0x4014000000000000, 0, 0, 0, 128, 128);
    let mut want: Vec<u8> = vec![1, 7];
    want.extend_from_slice(&[0, 0, 0, 0, 0, 0, 0, 0, 0, 0, 0, 0, 0, 0, 0, 0x10]); // uuid
    want.extend_from_slice(&[0x94, 0x01]); // entity type 148 as varint
    want.extend_from_slice(&[0x40, 0x14, 0, 0, 0, 0, 0, 0]); // x bits (5.0)
    want.extend_from_slice(&[0; 8]); // y bits
    want.extend_from_slice(&[0; 8]); // z bits
    want.extend_from_slice(&[0, 128, 128]); // pitch, yaw, head yaw
    want.push(0); // data
    want.extend_from_slice(&[0; 6]); // velocity
    assert_eq!(got, want);
}

#[test]
fn metadata_buffers() {
    let k = keys();
    let skin = build_skin_meta(88, 7, &k);
    assert_eq!(skin, vec![88, 7, 17, 0, 0x7F, 0xFF]);
    let name = build_name_meta(88, 7, &k, "hi");
    assert_eq!(name, vec![88, 7, 2, 6, 1, 0x08, 0, 2, b'h', b'i', 0xFF]);
    let holo = build_hologram_meta(88, 7, &k, "x");
    let want = vec![
        88, 7, // packet id, handle
        0, 0, 0x20, // invisible flags
        2, 6, 1, 0x08, 0, 1, b'x', // custom name
        3, 8, 1, // name visible
        5, 8, 1, // no gravity
        15, 0, 16,   // marker stand flags
        0xFF, // terminator
    ];
    assert_eq!(holo, want);
}

#[test]
fn label_heights_stack_downward_from_the_top_line() {
    // three lines above a proxy standing at y = 0
    assert_eq!(hologram_y_millis(0, 3, 0), 2550);
    assert_eq!(hologram_y_millis(0, 3, 1), 2300);
    assert_eq!(hologram_y_millis(0, 3, 2), 2050);
    assert_eq!(hologram_y_millis(64000, 1, 0), 66050);
}

#[test]
fn status_request_bytes_for_an_address() {
    let ad = ServerAddress { a: 127, b: 0, c: 0, d: 1, port: 25565 };
    let got = build_status_request(&ad);
    let mut body: Vec<u8> = Vec::new();
    body.push(0x00); // handshake tag
    body.extend_from_slice(&[0xFF, 0xFF, 0xFF, 0xFF, 0x0F]); // status-intent marker (-1)
    body.push(9);
    body.extend_from_slice(b"127.0.0.1");
    body.extend_from_slice(&[0x63, 0xDD]); // port 25565
    body.push(1); // next state: status
    let mut want: Vec<u8> = Vec::new();
    want.push(body.len() as u8);
    want.extend_from_slice(&body);
    want.extend_from_slice(&[1, 0]); // framed empty status request
    assert_eq!(got, want);
}

#[test]
fn decimal_rendering_and_parsing() {
    assert_eq!(render_u32(0), "0");
    assert_eq!(render_u32(42), "42");
    assert_eq!(render_u32(4294967295), "4294967295");
    assert_eq!(parse_u32_str("42"), Some(42));
    assert_eq!(parse_u32_str("0"), Some(0));
    assert_eq!(parse_u32_str(""), None);
    assert_eq!(parse_u32_str("4x"), None);
    assert_eq!(parse_u32_str("4294967296"), None);
}

fn ids() -> npcs::PacketIds {
    npcs::PacketIds {
        info_update: 62,
        spawn_entity: 1,
        head_rot: 72,
        entity_rot: 78,
        set_meta: 88,
        team: 94,
        remove_entities: 70,
        remove_info: 71,
    }
}

#[test]
fn spawn_sequence_orders_the_packets() {
    let mut n = npc("Ann", -1001);
    n.holograms.push(npcs::HologramLine { text: "line".to_string(), entity_id: -1002 });
    let packets = npcs::spawn_npc_packets(
        &ids(),
        &keys(),
        0x11,
        148,
        5,
        &n,
        (0, 0, 0),
        &vec![0x4000000000000000],
        &npcs::StatusBoard::new(),
    );
    assert_eq!(packets.len(), 7);
    assert_eq!(packets[0][0], 62); // roster identity first
    assert_eq!(packets[1][0], 1); // then the spawn
    assert_eq!(packets[2][0], 72); // head rotation
    assert_eq!(packets[3][0], 88); // skin layers
    assert_eq!(packets[4][0], 94); // name tag hiding team
    assert_eq!(packets[5][0], 1); // label entity spawn
    assert_eq!(packets[6][0], 88); // label metadata
    // the label entity carries its own identity, not the proxy's
    assert_ne!(packets[5][2..18], packets[1][2..18]);
}

#[test]
fn despawn_removes_proxy_labels_and_roster_entry() {
    let mut n = npc("Ann", -1001);
    n.holograms.push(npcs::HologramLine { text: "line".to_string(), entity_id: -1002 });
    let packets = npcs::despawn_npc_packets(&ids(), &n);
    assert_eq!(packets.len(), 2);
    let mut removal = vec![70u8, 2];
    npcs::write_varint(&mut removal, -1001);
    npcs::write_varint(&mut removal, -1002);
    assert_eq!(packets[0], removal);
    assert_eq!(packets[1][0], 71);
}

#[test]
fn look_rotation_uses_the_angle_encoding() {
    let packets = npcs::look_rotation_packets(&ids(), 5, 1800, -900);
    assert_eq!(packets[0], vec![72, 5, 128]);
    assert_eq!(packets[1], vec![78, 5, 128, 192, 1]);
}

#[test]
fn label_only_despawn_covers_exactly_the_label_handles() {
    let mut n = npc("Ann", -1001);
    let bare = npcs::despawn_hologram_packets(&ids(), &n);
    assert!(bare.is_empty());
    n.holograms.push(npcs::HologramLine { text: "a".to_string(), entity_id: -1002 });
    n.holograms.push(npcs::HologramLine { text: "b".to_string(), entity_id: -1003 });
    let packets = npcs::despawn_hologram_packets(&ids(), &n);
    assert_eq!(packets.len(), 1);
    let mut want = vec![70u8, 2];
    npcs::write_varint(&mut want, -1002);
    npcs::write_varint(&mut want, -1003);
    // the proxy's own handle is not in the batch
    assert_eq!(packets[0], want);
}

#[test]
fn spawned_labels_carry_the_rendered_text() {
    let mut board = npcs::StatusBoard::new();
    board.replace(vec![(
        "lobby".to_string(),
        npcs::ServerStatus { online: true, players_online: 3, players_max: 20 },
    )]);
    let mut n = npc("Ann", -1001);
    n.server = Some("lobby".to_string());
    n.holograms.push(npcs::HologramLine {
        text: "{online}/{max}".to_string(),
        entity_id: -1002,
    });
    let packets = npcs::spawn_hologram_packets(&ids(), &keys(), 5, &n, 0, 0, &vec![0], &board);
    assert_eq!(packets.len(), 2);
    // the metadata packet shows the resolved text, not the stored template
    assert_eq!(packets[1], npcs::build_hologram_meta(88, -1002, &keys(), "3/20"));
    // without a linked server the stored text goes out as it is
    n.server = None;
    let raw = npcs::spawn_hologram_packets(&ids(), &keys(), 5, &n, 0, 0, &vec![0], &board);
    assert_eq!(raw[1], npcs::build_hologram_meta(88, -1002, &keys(), "{online}/{max}"));
}
