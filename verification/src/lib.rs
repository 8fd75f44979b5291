//! Server-controlled presence proxies ("NPCs") for a multiplayer game
//! server: a persisted entity registry, a binary wire codec for the packets
//! that render the proxies to clients, a status poller for remote backends,
//! and the placeholder resolver that feeds live status into floating
//! labels.

use vstd::prelude::*;

mod angle;
mod commands;
mod digits;
mod events;
mod geometry;
mod model;
mod persist;
mod placeholder;
mod registry;
mod status;
mod text;
mod varint;
mod wire;

pub use angle::{angle_byte, angle_byte_spec, norm_tenths, lemma_angle_byte_periodic,
    lemma_angle_byte_range};
pub use commands::{CreateExecutor, RemoveExecutor, RemoveOutcome, ListExecutor, LookNearExecutor,
    HologramAddExecutor, ServerAddExecutor, ServerAddOutcome, ServerRemoveExecutor,
    ServerListExecutor, ServerSetExecutor, ServerSetOutcome};
pub use digits::{render_u32, parse_u32_str, dec_str, dec_val, sdec_str, all_digits,
    lemma_dec_round_trip};
pub use events::{JoinHandler, MoveHandler, InteractHandler, should_turn};
pub use geometry::{Viewpoint, find_npc_in_crosshair, pick, qualifies, strictly_better, dist_sq,
    raw_dot, norm_l_sq, in_range, lemma_pick_qualifies, lemma_pick_best};
pub use model::{Npc, NpcLocation, NpcSkin, HologramLine, HandleAllocator, npc_identity,
    hologram_identity, npc_uuid, hologram_uuid, uuid_v5_of, same_npc, persisted_eq, COORD_LIMIT};
pub use persist::{PRec, prec_of, precs_of, render_file, parse_file, render_npcs, parse_npcs,
    lemma_parse_render, prec_bounded, render_servers, parse_servers, render_servers_file,
    parse_servers_file, server_texts, addr_string, lemma_parse_servers_render};
pub use placeholder::{resolve_placeholders, has_placeholders, has_placeholder_spec,
    resolved_spec, status_token, online_token, max_token, pat_status, pat_online, pat_max,
    rendered_label_spec, rendered_label_texts, hologram_refreshes, refresh_pairs, rec_refreshes,
    line_refreshes, lemma_resolved_len};
pub use registry::{NpcRegistry, sel_lookup, ids_loadable, rec_handles, handles_needed,
    handles_distinct, lemma_created_id_fresh, lemma_identity_stable, lemma_save_round_trip};
pub use status::{ServerStatus, ServerAddress, ServerDirectory, StatusBoard, parse_address,
    server_names_sorted, lemma_servers_save_round_trip,
    render_address, str_lt, str_eq, str_less, build_status_request, status_request_bytes,
    parse_status_response, response_json_span, parse_slp_json, status_from_counts,
    status_of_counts, slp_counts_of, dir_lookup,
    status_lookup, host_bytes, handshake_body, frame_spec};
pub use text::{replace_spec, replace_all, contains, contains_sub, contains_char, escape_spec,
    unescape_spec, lemma_unescape_escape, lemma_replace_len, lemma_encode_utf8_len};
pub use varint::{varint_bytes, varint_i32, write_varint, write_varint_u32, read_varint_at,
    VarIntAccum, VarStep, group_val, vterm_at, lemma_varint_props, lemma_varint_round_trip,
    u32_of_i32};
pub use wire::{be_bytes, wire_string, nbt_text, team_name_bytes, team_packet_bytes,
    build_team_packet, spawn_entity_bytes, build_spawn_entity, head_rot_bytes, build_head_rot,
    entity_rot_bytes, build_entity_rot, remove_entities_bytes, build_remove_entities,
    remove_info_bytes, build_remove_info, MetaKeys, skin_meta_bytes, hologram_meta_bytes,
    name_meta_bytes, set_meta_bytes, build_skin_meta, build_hologram_meta, build_name_meta,
    info_add_bytes, build_info_add, hologram_y_spec, hologram_y_millis, meta_entry, meta_opt_text,
    PacketIds, holo_handles, spawn_npc_packets, spawn_hologram_packets, despawn_npc_packets,
    despawn_hologram_packets, look_rotation_packets};

verus! {

/// The plugin's root value: the host constructs one and drives the
/// library through it.
pub struct Npcs {}

impl Npcs {
    pub fn new() -> (r: Self)
        ensures
            true,
    {
        Npcs {  }
    }
}

impl Default for Npcs {
    fn default() -> (r: Self)
        ensures
            true,
    {
        Npcs::new()
    }
}

} // verus!
