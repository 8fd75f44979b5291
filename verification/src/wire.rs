//! The wire codec: stateless builders that turn a proxy record (or label
//! line) into the exact byte sequences the client protocol expects for
//! lifecycle, labeling and rotation. Every packet body opens with its
//! version-mapped packet id; the session layer adds the length framing.
//! The team packet, for which the host offers no structured encoder, is
//! assembled field by field in a fixed, documented order.

use vstd::prelude::*;

use crate::digits::sdec_bytes;
use vstd::string::StringSliceAdditionalSpecFns;
use vstd::utf8::encode_utf8;
use crate::varint::{varint_bytes, varint_i32, write_varint, write_varint_u32};
use crate::model::{Npc, COORD_LIMIT, hologram_identity};
use crate::placeholder::{rendered_label_spec, rendered_label_texts};
use crate::status::StatusBoard;
use crate::angle::{angle_byte, angle_byte_spec};

verus! {

/// The big-endian bytes of the low `n` bytes of a value.
pub open spec fn be_bytes(v: nat, n: nat) -> Seq<u8>
    decreases n,
{
    if n == 0 {
        Seq::empty()
    } else {
        be_bytes(v / 256, (n - 1) as nat).push((v % 256) as u8)
    }
}

/// `v` with `k` low bytes divided away.
pub open spec fn pow_div(v: nat, k: nat) -> nat
    decreases k,
{
    if k == 0 {
        v
    } else {
        pow_div(v, (k - 1) as nat) / 256
    }
}

proof fn lemma_pow_div_shift(v: nat, k: nat)
    ensures
        pow_div(v / 256, k) == pow_div(v, k + 1),
    decreases k,
{
    if k == 0 {
        assert(pow_div(v / 256, 0) == v / 256);
        assert(pow_div(v, 1) == pow_div(v, 0) / 256);
        assert(pow_div(v, 0) == v);
    } else {
        lemma_pow_div_shift(v, (k - 1) as nat);
        assert(pow_div(v / 256, k) == pow_div(v / 256, (k - 1) as nat) / 256);
        assert(pow_div(v, k + 1) == pow_div(v, k) / 256);
    }
}

/// Byte `i` of the `n`-byte big-endian rendering is the `(n-1-i)`-times
/// shifted value's low byte.
proof fn lemma_be_eq(v: nat, n: nat)
    ensures
        be_bytes(v, n).len() == n,
        forall|i: int|
            0 <= i < n ==> be_bytes(v, n)[i] == (pow_div(v, (n - 1 - i) as nat) % 256) as u8,
    decreases n,
{
    if n > 0 {
        lemma_be_eq(v / 256, (n - 1) as nat);
        assert forall|i: int| 0 <= i < n implies be_bytes(v, n)[i] == (pow_div(
            v,
            (n - 1 - i) as nat,
        ) % 256) as u8 by {
            if i < n - 1 {
                assert(be_bytes(v, n)[i] == be_bytes(v / 256, (n - 1) as nat)[i]);
                lemma_pow_div_shift(v, (n - 2 - i) as nat);
            }
        }
    }
}

/// Appends the low `n` big-endian bytes of `v`.
pub fn append_be(out: &mut Vec<u8>, v: u128, n: usize)
    requires
        n <= 16,
    ensures
        final(out)@ == old(out)@ + be_bytes(v as nat, n as nat),
{
    proof {
        lemma_be_eq(v as nat, n as nat);
    }
    let ghost be = be_bytes(v as nat, n as nat);
    let mut rev: Vec<u8> = Vec::new();
    let mut x: u128 = v;
    let mut k: usize = 0;
    while k < n
        invariant
            k <= n,
            rev@.len() == k,
            forall|j: int| 0 <= j < k ==> rev@[j] == (pow_div(v as nat, j as nat) % 256) as u8,
            x as nat == pow_div(v as nat, k as nat),
        decreases n - k,
    {
        rev.push((x % 256) as u8);
        x = x / 256;
        k = k + 1;
    }
    let mut i: usize = n;
    proof {
        assert(out@ + be.take(0) =~= out@);
    }
    while i > 0
        invariant
            i <= n,
            n <= 16,
            be == be_bytes(v as nat, n as nat),
            be.len() == n,
            forall|j: int| 0 <= j < n ==> be[j] == (pow_div(v as nat, (n - 1 - j) as nat) % 256) as u8,
            rev@.len() == n,
            forall|j: int| 0 <= j < n ==> rev@[j] == (pow_div(v as nat, j as nat) % 256) as u8,
            out@ == old(out)@ + be.take(n - i),
        decreases i,
    {
        i = i - 1;
        proof {
            assert(rev@[i as int] == be[n - 1 - i]);
            assert(be.take(n - i) =~= be.take(n - i - 1).push(be[n - 1 - i]));
        }
        out.push(rev[i]);
    }
    proof {
        assert(be.take(n as int) =~= be);
    }
}

/// A length-prefixed string field: the byte length as a varint, then the
/// bytes.
pub open spec fn wire_string(s: Seq<u8>) -> Seq<u8>
    recommends
        s.len() < 0x8000_0000,
{
    varint_bytes(s.len() as u32) + s
}

/// Appends the bytes of a slice.
pub fn append_bytes(out: &mut Vec<u8>, b: &[u8])
    ensures
        final(out)@ == old(out)@ + b@,
{
    let mut i: usize = 0;
    proof {
        assert(out@ + b@.take(0) =~= out@);
    }
    while i < b.len()
        invariant
            i <= b@.len(),
            out@ == old(out)@ + b@.take(i as int),
        decreases b@.len() - i,
    {
        proof {
            assert(b@.take(i as int + 1) =~= b@.take(i as int).push(b@[i as int]));
        }
        out.push(b[i]);
        i = i + 1;
    }
    proof {
        assert(b@.take(b@.len() as int) =~= b@);
    }
}

/// Appends a length-prefixed string field.
pub fn append_wire_string(out: &mut Vec<u8>, s: &str)
    requires
        s@.len() <= 0x100_0000,
    ensures
        final(out)@ == old(out)@ + wire_string(s.spec_bytes()),
        s.spec_bytes().len() < 0x8000_0000 ==> true,
{
    let b = s.as_bytes();
    let n = b.len();
    proof {
        assert(b@ == s.spec_bytes());
    }
    write_varint_u32(out, n as u32);
    append_bytes(out, b);
}

/// The team name a proxy is assigned to: `npc_` and its entity handle.
pub open spec fn team_name_bytes(handle: int) -> Seq<u8> {
    seq![0x6Eu8, 0x70u8, 0x63u8, 0x5Fu8] + sdec_bytes(handle)
}

/// A text component carried as network NBT: a string tag, a two-byte
/// big-endian length, and the text bytes.
pub open spec fn nbt_text(text: Seq<u8>) -> Seq<u8>
    recommends
        text.len() <= 0xFFFF,
{
    seq![0x08u8, (text.len() / 256) as u8, (text.len() % 256) as u8] + text
}

/// Appends a text component as network NBT.
pub fn append_nbt_text(out: &mut Vec<u8>, text: &str)
    requires
        text.spec_bytes().len() <= 0xFFFF,
    ensures
        final(out)@ == old(out)@ + nbt_text(text.spec_bytes()),
{
    let b = text.as_bytes();
    let n = b.len();
    out.push(0x08u8);
    out.push((n / 256) as u8);
    out.push((n % 256) as u8);
    append_bytes(out, b);
    proof {
        assert(final(out)@ =~= old(out)@ + nbt_text(text.spec_bytes()));
    }
}

/// The raw team-creation packet that hides a proxy's name tag: team name
/// `npc_<handle>`, mode 0 (create), an empty display name, friendly flags
/// 0, name-tag visibility 1 (never), collision rule 1 (never), color 21
/// (reset), empty prefix and suffix, and the proxy's name as the single
/// member. A single mis-ordered field here corrupts the session's stream,
/// so the layout is fixed by this specification.
pub open spec fn team_packet_bytes(packet_id: i32, handle: int, member: Seq<u8>) -> Seq<u8> {
    varint_i32(packet_id) + wire_string(team_name_bytes(handle)) + seq![0u8] + nbt_text(
        Seq::empty(),
    ) + seq![0u8] + varint_bytes(1u32) + varint_bytes(1u32) + varint_bytes(21u32) + nbt_text(
        Seq::empty(),
    ) + nbt_text(Seq::empty()) + varint_bytes(1u32) + wire_string(member)
}

/// Builds the name-tag-hiding team packet for a proxy.
#[verifier::rlimit(100)]
pub fn build_team_packet(packet_id: i32, npc: &Npc) -> (r: Vec<u8>)
    requires
        npc.name@.len() <= 0x10000,
    ensures
        r@ == team_packet_bytes(packet_id, npc.entity_id as int, encode_utf8(npc.name@)),
{
    let mut out: Vec<u8> = Vec::new();
    write_varint(&mut out, packet_id);
    // team name: "npc_" and the handle
    let mut tname: Vec<u8> = Vec::new();
    tname.push(0x6Eu8);
    tname.push(0x70u8);
    tname.push(0x63u8);
    tname.push(0x5Fu8);
    crate::digits::append_i64_bytes(&mut tname, npc.entity_id as i64);
    proof {
        assert(tname@ =~= team_name_bytes(npc.entity_id as int));
        lemma_sdec_bytes_len(npc.entity_id as int);
    }
    let tn = tname.len();
    write_varint_u32(&mut out, tn as u32);
    let mut tname2 = tname;
    out.append(&mut tname2);
    // mode 0: create team
    out.push(0u8);
    // empty display name
    out.push(0x08u8);
    out.push(0u8);
    out.push(0u8);
    // friendly flags
    out.push(0u8);
    // name tag visibility: 1 = never
    write_varint(&mut out, 1);
    // collision rule: 1 = never
    write_varint(&mut out, 1);
    // team color: 21 = reset
    write_varint(&mut out, 21);
    // empty prefix and suffix
    out.push(0x08u8);
    out.push(0u8);
    out.push(0u8);
    out.push(0x08u8);
    out.push(0u8);
    out.push(0u8);
    // one member: the proxy's name
    write_varint(&mut out, 1);
    append_wire_string(&mut out, npc.name.as_str());
    proof {
        assert(varint_i32(1i32) == varint_bytes(1u32));
        assert(varint_i32(21i32) == varint_bytes(21u32));
        assert(nbt_text(Seq::empty()) =~= seq![0x08u8, 0u8, 0u8]);
        assert(out@ =~= team_packet_bytes(
            packet_id,
            npc.entity_id as int,
            encode_utf8(npc.name@),
        ));
    }
    out
}

/// A handle's decimal rendering is short.
proof fn lemma_sdec_bytes_len(v: int)
    requires
        -0x8000_0000 <= v <= 0x8000_0000,
    ensures
        sdec_bytes(v).len() <= 11,
{
    reveal_with_fuel(crate::digits::dec_bytes, 12);
    if v < 0 {
    }
}

/// The spawn-entity packet: handle, identity, entity type, position as
/// three IEEE double bit patterns, the three orientation bytes, zero extra
/// data and zero velocity.
pub open spec fn spawn_entity_bytes(
    packet_id: i32,
    handle: int,
    uuid: u128,
    entity_type: u32,
    x_bits: u64,
    y_bits: u64,
    z_bits: u64,
    pitch_b: u8,
    yaw_b: u8,
    head_b: u8,
) -> Seq<u8> {
    varint_i32(packet_id) + varint_i32(handle as i32) + be_bytes(uuid as nat, 16) + varint_bytes(
        entity_type,
    ) + be_bytes(x_bits as nat, 8) + be_bytes(y_bits as nat, 8) + be_bytes(z_bits as nat, 8)
        + seq![pitch_b, yaw_b, head_b] + varint_bytes(0u32) + seq![0u8, 0u8, 0u8, 0u8, 0u8, 0u8]
}

/// Builds a spawn-entity packet.
#[verifier::rlimit(100)]
pub fn build_spawn_entity(
    packet_id: i32,
    handle: i32,
    uuid: u128,
    entity_type: u32,
    x_bits: u64,
    y_bits: u64,
    z_bits: u64,
    pitch_b: u8,
    yaw_b: u8,
    head_b: u8,
) -> (r: Vec<u8>)
    ensures
        r@ == spawn_entity_bytes(
            packet_id,
            handle as int,
            uuid,
            entity_type,
            x_bits,
            y_bits,
            z_bits,
            pitch_b,
            yaw_b,
            head_b,
        ),
{
    let mut out: Vec<u8> = Vec::new();
    write_varint(&mut out, packet_id);
    write_varint(&mut out, handle);
    append_be(&mut out, uuid, 16);
    write_varint_u32(&mut out, entity_type);
    append_be(&mut out, x_bits as u128, 8);
    append_be(&mut out, y_bits as u128, 8);
    append_be(&mut out, z_bits as u128, 8);
    out.push(pitch_b);
    out.push(yaw_b);
    out.push(head_b);
    write_varint(&mut out, 0);
    out.push(0u8);
    out.push(0u8);
    out.push(0u8);
    out.push(0u8);
    out.push(0u8);
    out.push(0u8);
    proof {
        assert(varint_i32(0i32) == varint_bytes(0u32));
        assert(out@ =~= spawn_entity_bytes(
            packet_id,
            handle as int,
            uuid,
            entity_type,
            x_bits,
            y_bits,
            z_bits,
            pitch_b,
            yaw_b,
            head_b,
        ));
    }
    out
}

/// The head-rotation packet.
pub open spec fn head_rot_bytes(packet_id: i32, handle: int, yaw_b: u8) -> Seq<u8> {
    varint_i32(packet_id) + varint_i32(handle as i32) + seq![yaw_b]
}

pub fn build_head_rot(packet_id: i32, handle: i32, yaw_b: u8) -> (r: Vec<u8>)
    ensures
        r@ == head_rot_bytes(packet_id, handle as int, yaw_b),
{
    let mut out: Vec<u8> = Vec::new();
    write_varint(&mut out, packet_id);
    write_varint(&mut out, handle);
    out.push(yaw_b);
    proof {
        assert(out@ =~= head_rot_bytes(packet_id, handle as int, yaw_b));
    }
    out
}

/// The body-rotation packet, on-ground flag set.
pub open spec fn entity_rot_bytes(packet_id: i32, handle: int, yaw_b: u8, pitch_b: u8) -> Seq<
    u8,
> {
    varint_i32(packet_id) + varint_i32(handle as i32) + seq![yaw_b, pitch_b, 1u8]
}

pub fn build_entity_rot(packet_id: i32, handle: i32, yaw_b: u8, pitch_b: u8) -> (r: Vec<u8>)
    ensures
        r@ == entity_rot_bytes(packet_id, handle as int, yaw_b, pitch_b),
{
    let mut out: Vec<u8> = Vec::new();
    write_varint(&mut out, packet_id);
    write_varint(&mut out, handle);
    out.push(yaw_b);
    out.push(pitch_b);
    out.push(1u8);
    proof {
        assert(out@ =~= entity_rot_bytes(packet_id, handle as int, yaw_b, pitch_b));
    }
    out
}

/// The handles removed by a remove-entities packet, encoded in order.
pub open spec fn handles_bytes(handles: Seq<i32>) -> Seq<u8>
    decreases handles.len(),
{
    if handles.len() == 0 {
        Seq::empty()
    } else {
        varint_i32(handles[0]) + handles_bytes(handles.skip(1))
    }
}

/// The remove-entities packet: the count, then each handle.
pub open spec fn remove_entities_bytes(packet_id: i32, handles: Seq<i32>) -> Seq<u8>
    recommends
        handles.len() < 0x8000_0000,
{
    varint_i32(packet_id) + varint_bytes(handles.len() as u32) + handles_bytes(handles)
}

proof fn lemma_handles_snoc(handles: Seq<i32>, h: i32)
    ensures
        handles_bytes(handles.push(h)) == handles_bytes(handles) + varint_i32(h),
    decreases handles.len(),
{
    if handles.len() == 0 {
        assert(handles.push(h) =~= seq![h]);
        assert(seq![h].skip(1) =~= Seq::<i32>::empty());
        assert(handles_bytes(seq![h]) == varint_i32(h) + handles_bytes(Seq::empty()));
        assert(varint_i32(h) + Seq::<u8>::empty() =~= varint_i32(h));
        assert(handles_bytes(handles) + varint_i32(h) =~= varint_i32(h));
    } else {
        lemma_handles_snoc(handles.skip(1), h);
        assert(handles.push(h).skip(1) =~= handles.skip(1).push(h));
        assert(handles.push(h)[0] == handles[0]);
        assert(varint_i32(handles[0]) + (handles_bytes(handles.skip(1)) + varint_i32(h))
            =~= (varint_i32(handles[0]) + handles_bytes(handles.skip(1))) + varint_i32(h));
    }
}

/// Builds a remove-entities packet for a batch of handles.
pub fn build_remove_entities(packet_id: i32, handles: &Vec<i32>) -> (r: Vec<u8>)
    requires
        handles@.len() < 0x8000_0000,
    ensures
        r@ == remove_entities_bytes(packet_id, handles@),
{
    let mut out: Vec<u8> = Vec::new();
    write_varint(&mut out, packet_id);
    write_varint_u32(&mut out, handles.len() as u32);
    let ghost base = out@;
    let mut i: usize = 0;
    proof {
        assert(handles_bytes(handles@.take(0)) =~= Seq::<u8>::empty());
        assert(out@ =~= base + handles_bytes(handles@.take(0)));
    }
    while i < handles.len()
        invariant
            i <= handles@.len(),
            out@ == base + handles_bytes(handles@.take(i as int)),
        decreases handles@.len() - i,
    {
        write_varint(&mut out, handles[i]);
        proof {
            lemma_handles_snoc(handles@.take(i as int), handles@[i as int]);
            assert(handles@.take(i as int).push(handles@[i as int]) =~= handles@.take(
                i as int + 1,
            ));
            assert(out@ =~= base + handles_bytes(handles@.take(i as int + 1)));
        }
        i = i + 1;
    }
    proof {
        assert(handles@.take(handles@.len() as int) =~= handles@);
        assert(out@ =~= remove_entities_bytes(packet_id, handles@));
    }
    out
}

/// The roster identities removed by a remove-player-info packet.
pub open spec fn uuids_bytes(uuids: Seq<u128>) -> Seq<u8>
    decreases uuids.len(),
{
    if uuids.len() == 0 {
        Seq::empty()
    } else {
        be_bytes(uuids[0] as nat, 16) + uuids_bytes(uuids.skip(1))
    }
}

/// The remove-player-info packet: the count, then each identity.
pub open spec fn remove_info_bytes(packet_id: i32, uuids: Seq<u128>) -> Seq<u8>
    recommends
        uuids.len() < 0x8000_0000,
{
    varint_i32(packet_id) + varint_bytes(uuids.len() as u32) + uuids_bytes(uuids)
}

/// Builds a remove-player-info packet for one proxy identity.
pub fn build_remove_info(packet_id: i32, uuid: u128) -> (r: Vec<u8>)
    ensures
        r@ == remove_info_bytes(packet_id, seq![uuid]),
{
    let mut out: Vec<u8> = Vec::new();
    write_varint(&mut out, packet_id);
    write_varint(&mut out, 1);
    append_be(&mut out, uuid, 16);
    proof {
        assert(varint_i32(1i32) == varint_bytes(1u32));
        assert(seq![uuid].skip(1) =~= Seq::<u128>::empty());
        assert(uuids_bytes(Seq::<u128>::empty()) =~= Seq::<u8>::empty());
        assert(uuids_bytes(seq![uuid]) == be_bytes(seq![uuid][0] as nat, 16) + uuids_bytes(
            seq![uuid].skip(1),
        ));
        assert(uuids_bytes(seq![uuid]) =~= be_bytes(uuid as nat, 16));
        assert(out@ =~= remove_info_bytes(packet_id, seq![uuid]));
    }
    out
}

/// One metadata entry: the index byte, the serializer type id, the value.
pub open spec fn meta_entry(index: u8, type_id: u32, value: Seq<u8>) -> Seq<u8> {
    seq![index] + varint_bytes(type_id) + value
}

/// An optional text component, present.
pub open spec fn meta_opt_text(text: Seq<u8>) -> Seq<u8> {
    seq![1u8] + nbt_text(text)
}

/// The per-version metadata indices and serializer type ids the codec
/// needs; the session layer supplies them for its negotiated version.
#[derive(Clone, Copy)]
pub struct MetaKeys {
    pub flags_index: u8,
    pub custom_name_index: u8,
    pub name_visible_index: u8,
    pub no_gravity_index: u8,
    pub stand_flags_index: u8,
    pub skin_parts_index: u8,
    pub byte_type: u32,
    pub bool_type: u32,
    pub opt_text_type: u32,
}

/// The metadata buffer that shows a full skin layer set on the proxy,
/// terminated.
pub open spec fn skin_meta_bytes(k: MetaKeys) -> Seq<u8> {
    meta_entry(k.skin_parts_index, k.byte_type, seq![0x7Fu8]) + seq![0xFFu8]
}

/// The metadata buffer of a label entity: invisible, the rendered text as
/// a visible custom name, no gravity, and the marker flag so it has no
/// bounding box; terminated.
pub open spec fn hologram_meta_bytes(k: MetaKeys, text: Seq<u8>) -> Seq<u8> {
    meta_entry(k.flags_index, k.byte_type, seq![0x20u8]) + meta_entry(
        k.custom_name_index,
        k.opt_text_type,
        meta_opt_text(text),
    ) + meta_entry(k.name_visible_index, k.bool_type, seq![1u8]) + meta_entry(
        k.no_gravity_index,
        k.bool_type,
        seq![1u8],
    ) + meta_entry(k.stand_flags_index, k.byte_type, seq![16u8]) + seq![0xFFu8]
}

/// The metadata buffer that only renames a label entity, terminated.
pub open spec fn name_meta_bytes(k: MetaKeys, text: Seq<u8>) -> Seq<u8> {
    meta_entry(k.custom_name_index, k.opt_text_type, meta_opt_text(text)) + seq![0xFFu8]
}

/// The set-entity-metadata packet around a metadata buffer.
pub open spec fn set_meta_bytes(packet_id: i32, handle: int, meta: Seq<u8>) -> Seq<u8> {
    varint_i32(packet_id) + varint_i32(handle as i32) + meta
}

/// Builds the skin-layers metadata packet for the proxy entity.
pub fn build_skin_meta(packet_id: i32, handle: i32, k: &MetaKeys) -> (r: Vec<u8>)
    ensures
        r@ == set_meta_bytes(packet_id, handle as int, skin_meta_bytes(*k)),
{
    let mut out: Vec<u8> = Vec::new();
    write_varint(&mut out, packet_id);
    write_varint(&mut out, handle);
    out.push(k.skin_parts_index);
    write_varint_u32(&mut out, k.byte_type);
    out.push(0x7Fu8);
    out.push(0xFFu8);
    proof {
        assert(out@ =~= set_meta_bytes(packet_id, handle as int, skin_meta_bytes(*k)));
    }
    out
}

/// Builds the full metadata packet for a label entity.
#[verifier::rlimit(100)]
pub fn build_hologram_meta(packet_id: i32, handle: i32, k: &MetaKeys, text: &str) -> (r: Vec<u8>)
    requires
        text.spec_bytes().len() <= 0xFFFF,
    ensures
        r@ == set_meta_bytes(packet_id, handle as int, hologram_meta_bytes(*k, text.spec_bytes())),
{
    let mut out: Vec<u8> = Vec::new();
    write_varint(&mut out, packet_id);
    write_varint(&mut out, handle);
    out.push(k.flags_index);
    write_varint_u32(&mut out, k.byte_type);
    out.push(0x20u8);
    out.push(k.custom_name_index);
    write_varint_u32(&mut out, k.opt_text_type);
    out.push(1u8);
    append_nbt_text(&mut out, text);
    out.push(k.name_visible_index);
    write_varint_u32(&mut out, k.bool_type);
    out.push(1u8);
    out.push(k.no_gravity_index);
    write_varint_u32(&mut out, k.bool_type);
    out.push(1u8);
    out.push(k.stand_flags_index);
    write_varint_u32(&mut out, k.byte_type);
    out.push(16u8);
    out.push(0xFFu8);
    proof {
        assert(out@ =~= set_meta_bytes(
            packet_id,
            handle as int,
            hologram_meta_bytes(*k, text.spec_bytes()),
        ));
    }
    out
}

/// Builds the metadata packet that pushes a re-rendered label text without
/// respawning the entity.
pub fn build_name_meta(packet_id: i32, handle: i32, k: &MetaKeys, text: &str) -> (r: Vec<u8>)
    requires
        text.spec_bytes().len() <= 0xFFFF,
    ensures
        r@ == set_meta_bytes(packet_id, handle as int, name_meta_bytes(*k, text.spec_bytes())),
{
    let mut out: Vec<u8> = Vec::new();
    write_varint(&mut out, packet_id);
    write_varint(&mut out, handle);
    out.push(k.custom_name_index);
    write_varint_u32(&mut out, k.opt_text_type);
    out.push(1u8);
    append_nbt_text(&mut out, text);
    out.push(0xFFu8);
    proof {
        assert(out@ =~= set_meta_bytes(
            packet_id,
            handle as int,
            name_meta_bytes(*k, text.spec_bytes()),
        ));
    }
    out
}

/// The roster-identity packet that registers the proxy's display identity
/// and keeps it out of the visible roster: actions add-player and
/// update-listed, one entry, the identity, the name, the optional signed
/// texture property, and listed = false.
pub open spec fn info_add_bytes(
    packet_id: i32,
    actions: u8,
    uuid: u128,
    name: Seq<u8>,
    skin: Option<(Seq<u8>, Seq<u8>)>,
) -> Seq<u8> {
    varint_i32(packet_id) + seq![actions] + varint_bytes(1u32) + be_bytes(uuid as nat, 16)
        + wire_string(name) + (match skin {
        None => varint_bytes(0u32),
        Some(p) => varint_bytes(1u32) + wire_string(
            seq![0x74u8, 0x65u8, 0x78u8, 0x74u8, 0x75u8, 0x72u8, 0x65u8, 0x73u8],
        ) + wire_string(p.0) + seq![1u8] + wire_string(p.1),
    }) + seq![0u8]
}

/// Builds the roster-identity packet for a proxy.
#[verifier::rlimit(100)]
#[verifier::spinoff_prover]
pub fn build_info_add(packet_id: i32, actions: u8, npc: &Npc) -> (r: Vec<u8>)
    requires
        npc.name@.len() <= 0x10000,
        match npc.skin {
            Some(sk) => sk.textures@.len() <= 0x100_0000 && sk.signature@.len() <= 0x100_0000,
            None => true,
        },
    ensures
        r@ == info_add_bytes(
            packet_id,
            actions,
            npc.uuid,
            encode_utf8(npc.name@),
            match npc.skin {
                Some(sk) => Some(
                    (encode_utf8(sk.textures@), encode_utf8(sk.signature@)),
                ),
                None => None,
            },
        ),
{
    let mut out: Vec<u8> = Vec::new();
    write_varint(&mut out, packet_id);
    out.push(actions);
    write_varint(&mut out, 1);
    append_be(&mut out, npc.uuid, 16);
    append_wire_string(&mut out, npc.name.as_str());
    match &npc.skin {
        Some(sk) => {
            write_varint(&mut out, 1);
            proof {
                reveal_strlit("textures");
                vstd::string::is_ascii_spec_bytes("textures");
                assert(("textures").spec_bytes() =~= seq![
                    0x74u8,
                    0x65u8,
                    0x78u8,
                    0x74u8,
                    0x75u8,
                    0x72u8,
                    0x65u8,
                    0x73u8,
                ]);
            }
            append_wire_string(&mut out, "textures");
            append_wire_string(&mut out, sk.textures.as_str());
            out.push(1u8);
            append_wire_string(&mut out, sk.signature.as_str());
        },
        None => {
            write_varint(&mut out, 0);
        },
    }
    out.push(0u8);
    proof {
        assert(varint_i32(1i32) == varint_bytes(1u32));
        assert(varint_i32(0i32) == varint_bytes(0u32));
        assert(out@ =~= info_add_bytes(
            packet_id,
            actions,
            npc.uuid,
            encode_utf8(npc.name@),
            match npc.skin {
                Some(sk) => Some(
                    (encode_utf8(sk.textures@), encode_utf8(sk.signature@)),
                ),
                None => None,
            },
        ));
    }
    out
}

/// The height of label line `i` of `total` above the proxy's feet, in
/// thousandths of a block: line 0 is the top line.
pub open spec fn hologram_y_spec(base_y: int, total: int, i: int) -> int {
    base_y + 2050 + (total - 1 - i) * 250
}

/// The height of one label line, in thousandths of a block.
pub fn hologram_y_millis(base_y: i64, total: usize, i: usize) -> (y: i64)
    requires
        i < total,
        total <= 0x10000,
        -COORD_LIMIT <= base_y <= COORD_LIMIT,
    ensures
        y as int == hologram_y_spec(base_y as int, total as int, i as int),
{
    let lines_above: i64 = (total - 1 - i) as i64;
    proof {
        assert(lines_above * 250 <= 0x10000 * 250) by (nonlinear_arith)
            requires
                0 <= lines_above <= 0x10000,
        ;
        assert(lines_above * 250 >= 0) by (nonlinear_arith)
            requires
                lines_above >= 0,
        ;
    }
    base_y + 2050 + lines_above * 250
}


/// The version-mapped packet ids the composite sequences need; the
/// session layer supplies them for its negotiated version.
#[derive(Clone, Copy)]
pub struct PacketIds {
    pub info_update: i32,
    pub spawn_entity: i32,
    pub head_rot: i32,
    pub entity_rot: i32,
    pub set_meta: i32,
    pub team: i32,
    pub remove_entities: i32,
    pub remove_info: i32,
}

/// The entity handles of a record's label lines, in order.
pub open spec fn holo_handles(n: Npc) -> Seq<i32> {
    Seq::new(n.holograms@.len(), |k: int| n.holograms@[k].entity_id)
}

/// The label-line spawn pair list for one proxy and one session: for each
/// label, in line order, the marker-entity spawn at the caller's height
/// bit pattern, then its metadata carrying the rendered text — resolved
/// against the linked server's current reading when the record links one,
/// else the stored text.
#[verifier::rlimit(100)]
#[verifier::spinoff_prover]
#[verifier::loop_isolation(false)]
pub fn spawn_hologram_packets(
    ids: &PacketIds,
    keys: &MetaKeys,
    stand_type: u32,
    npc: &Npc,
    x_bits: u64,
    z_bits: u64,
    label_y_bits: &Vec<u64>,
    board: &StatusBoard,
) -> (r: Vec<Vec<u8>>)
    requires
        label_y_bits@.len() == npc.holograms@.len(),
        forall|k: int|
            0 <= k < npc.holograms@.len() ==> (#[trigger] npc.holograms@[k]).text@.len() <= 0x7FF,
    ensures
        r@.len() == 2 * npc.holograms@.len(),
        forall|k: int|
            0 <= k < npc.holograms@.len() ==> {
                &&& r@[2 * k]@ == spawn_entity_bytes(
                    ids.spawn_entity,
                    (#[trigger] npc.holograms@[k]).entity_id as int,
                    hologram_identity(npc.holograms@[k].entity_id),
                    stand_type,
                    x_bits,
                    label_y_bits@[k],
                    z_bits,
                    0,
                    0,
                    0,
                )
                &&& r@[2 * k + 1]@ == set_meta_bytes(
                    ids.set_meta,
                    npc.holograms@[k].entity_id as int,
                    hologram_meta_bytes(
                        *keys,
                        encode_utf8(rendered_label_spec(*npc, k, *board)),
                    ),
                )
            },
{
    let texts = rendered_label_texts(npc, board);
    let mut out: Vec<Vec<u8>> = Vec::new();
    let mut k: usize = 0;
    while k < npc.holograms.len()
        invariant
            k <= npc.holograms@.len(),
            out@.len() == 2 * k,
            forall|j: int|
                0 <= j < k ==> {
                    &&& out@[2 * j]@ == spawn_entity_bytes(
                        ids.spawn_entity,
                        (#[trigger] npc.holograms@[j]).entity_id as int,
                        hologram_identity(npc.holograms@[j].entity_id),
                        stand_type,
                        x_bits,
                        label_y_bits@[j],
                        z_bits,
                        0,
                        0,
                        0,
                    )
                    &&& out@[2 * j + 1]@ == set_meta_bytes(
                        ids.set_meta,
                        npc.holograms@[j].entity_id as int,
                        hologram_meta_bytes(
                            *keys,
                            encode_utf8(rendered_label_spec(*npc, j, *board)),
                        ),
                    )
                },
        decreases npc.holograms@.len() - k,
    {
        let handle = npc.holograms[k].entity_id;
        let holo_uuid = crate::model::hologram_uuid(handle);
        out.push(
            build_spawn_entity(
                ids.spawn_entity,
                handle,
                holo_uuid,
                stand_type,
                x_bits,
                label_y_bits[k],
                z_bits,
                0,
                0,
                0,
            ),
        );
        proof {
            assert(texts@[k as int]@ == rendered_label_spec(*npc, k as int, *board));
            if npc.server is Some {
                crate::placeholder::lemma_resolved_len(
                    npc.holograms@[k as int].text@,
                    board.status_of(npc.server->Some_0@),
                );
            }
            assert(texts@[k as int]@.len() <= 0x3FF8);
            crate::text::lemma_encode_utf8_len(texts@[k as int]@);
        }
        out.push(build_hologram_meta(ids.set_meta, handle, keys, texts[k].as_str()));
        proof {
            assert(out@[2 * (k as int)]@ == spawn_entity_bytes(
                ids.spawn_entity,
                handle as int,
                hologram_identity(handle),
                stand_type,
                x_bits,
                label_y_bits@[k as int],
                z_bits,
                0,
                0,
                0,
            ));
            assert(out@[2 * (k as int) + 1]@ == set_meta_bytes(
                ids.set_meta,
                handle as int,
                hologram_meta_bytes(
                    *keys,
                    encode_utf8(rendered_label_spec(*npc, k as int, *board)),
                ),
            ));
        }
        k = k + 1;
    }
    out
}

/// The full spawn sequence for one proxy and one session, in the order
/// the client expects: the roster identity (listed = false), the spawn,
/// the head rotation, the skin-layer metadata, the name-tag-hiding team,
/// then for each label line its marker-entity spawn and its metadata with
/// the rendered text — resolved against the linked server's current
/// reading when the record links one, else the stored text. Position bit
/// patterns come from the caller; the orientation bytes and rendered
/// texts are computed here.
#[verifier::rlimit(100)]
#[verifier::spinoff_prover]
#[verifier::loop_isolation(false)]
pub fn spawn_npc_packets(
    ids: &PacketIds,
    keys: &MetaKeys,
    actions: u8,
    player_type: u32,
    stand_type: u32,
    npc: &Npc,
    pos_bits: (u64, u64, u64),
    label_y_bits: &Vec<u64>,
    board: &StatusBoard,
) -> (r: Vec<Vec<u8>>)
    requires
        npc.name@.len() <= 0x10000,
        match npc.skin {
            Some(sk) => sk.textures@.len() <= 0x100_0000 && sk.signature@.len() <= 0x100_0000,
            None => true,
        },
        label_y_bits@.len() == npc.holograms@.len(),
        forall|k: int|
            0 <= k < npc.holograms@.len() ==> (#[trigger] npc.holograms@[k]).text@.len() <= 0x7FF,
    ensures
        r@.len() == 5 + 2 * npc.holograms@.len(),
        r@[0]@ == info_add_bytes(
            ids.info_update,
            actions,
            npc.uuid,
            encode_utf8(npc.name@),
            match npc.skin {
                Some(sk) => Some((encode_utf8(sk.textures@), encode_utf8(sk.signature@))),
                None => None,
            },
        ),
        r@[1]@ == spawn_entity_bytes(
            ids.spawn_entity,
            npc.entity_id as int,
            npc.uuid,
            player_type,
            pos_bits.0,
            pos_bits.1,
            pos_bits.2,
            angle_byte_spec(npc.location.pitch as int) as u8,
            angle_byte_spec(npc.location.yaw as int) as u8,
            angle_byte_spec(npc.location.yaw as int) as u8,
        ),
        r@[2]@ == head_rot_bytes(
            ids.head_rot,
            npc.entity_id as int,
            angle_byte_spec(npc.location.yaw as int) as u8,
        ),
        r@[3]@ == set_meta_bytes(ids.set_meta, npc.entity_id as int, skin_meta_bytes(*keys)),
        r@[4]@ == team_packet_bytes(ids.team, npc.entity_id as int, encode_utf8(npc.name@)),
        forall|k: int|
            0 <= k < npc.holograms@.len() ==> {
                &&& r@[5 + 2 * k]@ == spawn_entity_bytes(
                    ids.spawn_entity,
                    (#[trigger] npc.holograms@[k]).entity_id as int,
                    hologram_identity(npc.holograms@[k].entity_id),
                    stand_type,
                    pos_bits.0,
                    label_y_bits@[k],
                    pos_bits.2,
                    0,
                    0,
                    0,
                )
                &&& r@[6 + 2 * k]@ == set_meta_bytes(
                    ids.set_meta,
                    npc.holograms@[k].entity_id as int,
                    hologram_meta_bytes(
                        *keys,
                        encode_utf8(rendered_label_spec(*npc, k, *board)),
                    ),
                )
            },
{
    let mut out: Vec<Vec<u8>> = Vec::new();
    out.push(build_info_add(ids.info_update, actions, npc));
    let yaw_b = angle_byte(npc.location.yaw);
    let pitch_b = angle_byte(npc.location.pitch);
    out.push(
        build_spawn_entity(
            ids.spawn_entity,
            npc.entity_id,
            npc.uuid,
            player_type,
            pos_bits.0,
            pos_bits.1,
            pos_bits.2,
            pitch_b,
            yaw_b,
            yaw_b,
        ),
    );
    out.push(build_head_rot(ids.head_rot, npc.entity_id, yaw_b));
    out.push(build_skin_meta(ids.set_meta, npc.entity_id, keys));
    out.push(build_team_packet(ids.team, npc));
    let ghost head5 = out@;
    let mut holos = spawn_hologram_packets(
        ids,
        keys,
        stand_type,
        npc,
        pos_bits.0,
        pos_bits.2,
        label_y_bits,
        board,
    );
    let ghost holo_seq = holos@;
    out.append(&mut holos);
    proof {
        assert(out@ == head5 + holo_seq);
        assert forall|k: int| 0 <= k < npc.holograms@.len() implies (#[trigger] out@[5 + 2 * k])
            == holo_seq[2 * k] && out@[6 + 2 * k] == holo_seq[2 * k + 1] by {
            assert(out@[5 + 2 * k] == holo_seq[5 + 2 * k - 5]);
            assert(out@[6 + 2 * k] == holo_seq[6 + 2 * k - 5]);
        }
    }
    out
}

/// The despawn batch for one proxy and one session: one remove-entities
/// packet for the proxy's handle and every label handle, then the removal
/// of its roster identity.
pub fn despawn_npc_packets(ids: &PacketIds, npc: &Npc) -> (r: Vec<Vec<u8>>)
    requires
        npc.holograms@.len() < 0x100,
    ensures
        r@.len() == 2,
        r@[0]@ == remove_entities_bytes(
            ids.remove_entities,
            seq![npc.entity_id] + holo_handles(*npc),
        ),
        r@[1]@ == remove_info_bytes(ids.remove_info, seq![npc.uuid]),
{
    let mut handles: Vec<i32> = Vec::new();
    handles.push(npc.entity_id);
    let mut k: usize = 0;
    while k < npc.holograms.len()
        invariant
            k <= npc.holograms@.len(),
            npc.holograms@.len() < 0x100,
            handles@.len() == 1 + k,
            handles@[0] == npc.entity_id,
            forall|j: int|
                1 <= j < handles@.len() ==> #[trigger] handles@[j] == npc.holograms@[j
                    - 1].entity_id,
        decreases npc.holograms@.len() - k,
    {
        handles.push(npc.holograms[k].entity_id);
        k = k + 1;
    }
    proof {
        let expected = seq![npc.entity_id] + holo_handles(*npc);
        assert(handles@.len() == expected.len());
        assert forall|j: int| 0 <= j < handles@.len() implies handles@[j] == expected[j] by {
            if j > 0 {
                assert(expected[j] == holo_handles(*npc)[j - 1]);
                assert(holo_handles(*npc)[j - 1] == npc.holograms@[j - 1].entity_id);
                assert(handles@[j] == npc.holograms@[j - 1].entity_id);
            }
        }
        assert(handles@ =~= expected);
    }
    let mut out: Vec<Vec<u8>> = Vec::new();
    out.push(build_remove_entities(ids.remove_entities, &handles));
    out.push(build_remove_info(ids.remove_info, npc.uuid));
    out
}

/// The label-only despawn for the label-resync path: one remove-entities
/// packet carrying exactly the record's label handles in line order, and
/// no packet at all when it has no labels.
pub fn despawn_hologram_packets(ids: &PacketIds, npc: &Npc) -> (r: Vec<Vec<u8>>)
    requires
        npc.holograms@.len() < 0x100,
    ensures
        npc.holograms@.len() == 0 ==> r@.len() == 0,
        npc.holograms@.len() > 0 ==> {
            &&& r@.len() == 1
            &&& r@[0]@ == remove_entities_bytes(ids.remove_entities, holo_handles(*npc))
        },
{
    let mut out: Vec<Vec<u8>> = Vec::new();
    if npc.holograms.len() == 0 {
        return out;
    }
    let mut handles: Vec<i32> = Vec::new();
    let mut k: usize = 0;
    while k < npc.holograms.len()
        invariant
            k <= npc.holograms@.len(),
            handles@.len() == k,
            forall|j: int| 0 <= j < k ==> #[trigger] handles@[j] == npc.holograms@[j].entity_id,
        decreases npc.holograms@.len() - k,
    {
        handles.push(npc.holograms[k].entity_id);
        k = k + 1;
    }
    proof {
        assert(handles@ =~= holo_handles(*npc));
    }
    out.push(build_remove_entities(ids.remove_entities, &handles));
    out
}

/// The rotation pair that turns a proxy toward a target: head rotation
/// then body rotation, both carrying the byte encodings of the given
/// angles in tenths of a degree.
pub fn look_rotation_packets(ids: &PacketIds, handle: i32, yaw_tenths: i32, pitch_tenths: i32) -> (r:
    Vec<Vec<u8>>)
    ensures
        r@.len() == 2,
        r@[0]@ == head_rot_bytes(
            ids.head_rot,
            handle as int,
            angle_byte_spec(yaw_tenths as int) as u8,
        ),
        r@[1]@ == entity_rot_bytes(
            ids.entity_rot,
            handle as int,
            angle_byte_spec(yaw_tenths as int) as u8,
            angle_byte_spec(pitch_tenths as int) as u8,
        ),
{
    let yaw_b = angle_byte(yaw_tenths);
    let pitch_b = angle_byte(pitch_tenths);
    let mut out: Vec<Vec<u8>> = Vec::new();
    out.push(build_head_rot(ids.head_rot, handle, yaw_b));
    out.push(build_entity_rot(ids.entity_rot, handle, yaw_b, pitch_b));
    out
}

} // verus!
