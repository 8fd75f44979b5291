use npcs::{Npc, NpcLocation, NpcSkin, NpcRegistry, HologramLine, npc_uuid};

fn loc(x: i64, y: i64, z: i64) -> NpcLocation {
    NpcLocation { x, y, z, yaw: 0, pitch: 0 }
}

#[test]
fn ids_strictly_increase_and_are_never_reused() {
    let mut reg = NpcRegistry::new();
    let a = reg.create("a".to_string(), loc(0, 0, 0), None);
    let b = reg.create("b".to_string(), loc(1000, 0, 0), None);
    assert_eq!(a.id, 1);
    assert_eq!(b.id, 2);
    assert!(reg.remove(1).is_some());
    // the freed id is not handed out again
    let c = reg.create("c".to_string(), loc(2000, 0, 0), None);
    assert_eq!(c.id, 3);
    assert!(reg.get(1).is_none());
    assert!(reg.remove(1).is_none());
}

#[test]
fn reload_seeds_next_id_past_the_highest() {
    let mut reg = NpcRegistry::new();
    reg.create("a".to_string(), loc(0, 0, 0), None);
    reg.create("b".to_string(), loc(1000, 0, 0), None);
    reg.create("c".to_string(), loc(2000, 0, 0), None);
    reg.remove(2);
    let saved = reg.save();
    let mut reloaded = NpcRegistry::new();
    let count = reloaded.load(saved.as_str());
    assert_eq!(count, 2);
    let d = reloaded.create("d".to_string(), loc(3000, 0, 0), None);
    assert_eq!(d.id, 4);
}

#[test]
fn identity_is_stable_across_reload() {
    let mut reg = NpcRegistry::new();
    let a = reg.create("a".to_string(), loc(0, 0, 0), None);
    let saved = reg.save();
    let mut reloaded = NpcRegistry::new();
    assert_eq!(reloaded.load(saved.as_str()), 1);
    let again = reloaded.get(a.id).unwrap();
    assert_eq!(again.uuid, a.uuid);
    // re-deriving from the id alone gives the same value
    assert_eq!(npc_uuid(a.id), a.uuid);
    assert_ne!(npc_uuid(a.id), npc_uuid(a.id + 1));
}

#[test]
fn save_load_save_round_trip() {
    let mut reg = NpcRegistry::new();
    let skin = NpcSkin {
        textures: "blob with \"quotes\" and \\slashes\\".to_string(),
        signature: "sig".to_string(),
    };
    reg.create(
        "Guide \"The第一\" one".to_string(),
        NpcLocation { x: 12500, y: -3250, z: 0, yaw: 900, pitch: -125 },
        Some(skin),
    );
    reg.create("plain".to_string(), loc(-1000, 64000, 7), None);
    let id2 = 2;
    reg.add_hologram(id2, "line one".to_string());
    reg.add_hologram(id2, "{status} {online}/{max}".to_string());
    reg.set_server(id2, Some("lobby".to_string()));
    reg.toggle_look_at_nearest(1);

    let s1 = reg.save();
    let mut loaded = NpcRegistry::new();
    assert_eq!(loaded.load(s1.as_str()), 2);
    let s2 = loaded.save();
    assert_eq!(s1, s2);

    // a second full cycle stays fixed
    let mut loaded2 = NpcRegistry::new();
    assert_eq!(loaded2.load(s2.as_str()), 2);
    assert_eq!(loaded2.save(), s1);

    // persisted fields carried over exactly, label order preserved
    let n = loaded.get(id2).unwrap();
    assert_eq!(n.name, "plain");
    assert_eq!(n.holograms.len(), 2);
    assert_eq!(n.holograms[0].text, "line one");
    assert_eq!(n.holograms[1].text, "{status} {online}/{max}");
    assert_eq!(n.server.as_deref(), Some("lobby"));
}

#[test]
fn reload_reassigns_fresh_runtime_handles() {
    let mut reg = NpcRegistry::new();
    reg.create("a".to_string(), loc(0, 0, 0), None);
    reg.add_hologram(1, "text".to_string());
    let saved = reg.save();
    let mut loaded = NpcRegistry::new();
    loaded.load(saved.as_str());
    let n = loaded.get(1).unwrap();
    // handles count downward from -1000 and are unique per process start
    assert!(n.entity_id <= -1000);
    assert!(n.holograms[0].entity_id <= -1000);
    assert_ne!(n.entity_id, n.holograms[0].entity_id);
}

#[test]
fn malformed_files_load_zero_records() {
    let mut reg = NpcRegistry::new();
    assert_eq!(reg.load("not a snapshot"), 0);
    assert_eq!(reg.load(""), 0);
    // duplicate ids are malformed
    let mut src = NpcRegistry::new();
    src.create("a".to_string(), loc(0, 0, 0), None);
    let block = src.save();
    let doubled = format!("{}{}", block, block);
    let mut reg2 = NpcRegistry::new();
    assert_eq!(reg2.load(doubled.as_str()), 0);
}

#[test]
fn lookups_and_mutations() {
    let mut reg = NpcRegistry::new();
    let a = reg.create("a".to_string(), loc(0, 0, 0), None);
    assert!(reg.get_by_entity_id(a.entity_id).is_some());
    assert!(reg.get_by_entity_id(a.entity_id - 1).is_none());
    assert_eq!(reg.toggle_look_at_nearest(a.id), Some(true));
    assert_eq!(reg.toggle_look_at_nearest(a.id), Some(false));
    assert_eq!(reg.toggle_look_at_nearest(99), None);
    let sel: u128 = 42;
    reg.select(sel, a.id);
    assert_eq!(reg.get_selected(sel), Some(a.id));
    assert_eq!(reg.get_selected(7), None);
    reg.select(sel, 9);
    assert_eq!(reg.get_selected(sel), Some(9));
    let with_line = reg.add_hologram(a.id, "hi".to_string()).unwrap();
    assert_eq!(with_line.holograms.len(), 1);
    let looking = {
        reg.toggle_look_at_nearest(a.id);
        reg.look_at_nearest_npcs()
    };
    assert_eq!(looking.len(), 1);
    assert_eq!(looking[0].id, a.id);
}

#[test]
fn hologram_lines_are_their_own_entities() {
    let line = HologramLine { text: "t".to_string(), entity_id: -1234 };
    let copy = line.clone();
    assert_eq!(copy.text, "t");
    assert_eq!(copy.entity_id, -1234);
    let _ = Npc {
        id: 7,
        name: "n".to_string(),
        uuid: 0,
        entity_id: -1,
        location: loc(0, 0, 0),
        skin: None,
        look_at_nearest: false,
        holograms: vec![line],
        server: None,
    };
}

#[test]
fn reload_handles_are_distinct_across_records() {
    let mut reg = NpcRegistry::new();
    reg.create("a".to_string(), loc(0, 0, 0), None);
    reg.create("b".to_string(), loc(1000, 0, 0), None);
    reg.add_hologram(1, "one".to_string());
    reg.add_hologram(2, "two".to_string());
    reg.add_hologram(2, "three".to_string());
    let saved = reg.save();
    let mut loaded = NpcRegistry::new();
    assert_eq!(loaded.load(saved.as_str()), 2);
    let mut handles = Vec::new();
    for n in loaded.all() {
        handles.push(n.entity_id);
        for line in &n.holograms {
            handles.push(line.entity_id);
        }
    }
    let mut unique = handles.clone();
    unique.sort();
    unique.dedup();
    assert_eq!(unique.len(), handles.len());
    assert_eq!(handles.len(), 5);
}
