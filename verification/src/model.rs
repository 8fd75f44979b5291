//! The value types of a presence proxy: its location, optional skin, label
//! lines, and the record itself, together with the derivation of its stable
//! identity and the allocation of process-lifetime entity handles.

use vstd::prelude::*;

use crate::digits::{dec_bytes, sdec_bytes, append_u64_bytes, append_i64_bytes};

verus! {

/// Coordinates are held in thousandths of a block, bounded well past the
/// playable world so that products in the targeting math stay in range.
pub const COORD_LIMIT: i64 = 0x10_0000_0000;

/// A position and orientation: coordinates in thousandths of a block,
/// angles in tenths of a degree.
#[derive(Clone, Copy)]
pub struct NpcLocation {
    pub x: i64,
    pub y: i64,
    pub z: i64,
    pub yaw: i32,
    pub pitch: i32,
}

impl NpcLocation {
    pub open spec fn wf(self) -> bool {
        &&& -COORD_LIMIT <= self.x <= COORD_LIMIT
        &&& -COORD_LIMIT <= self.y <= COORD_LIMIT
        &&& -COORD_LIMIT <= self.z <= COORD_LIMIT
    }
}

/// An opaque signed texture reference obtained from the identity service.
pub struct NpcSkin {
    pub textures: String,
    pub signature: String,
}

impl Clone for NpcSkin {
    fn clone(&self) -> (r: Self)
        ensures
            r == *self,
    {
        NpcSkin { textures: self.textures.clone(), signature: self.signature.clone() }
    }
}

/// One line of floating text above a proxy. The line is its own protocol
/// entity and carries its own process-lifetime handle.
pub struct HologramLine {
    pub text: String,
    pub entity_id: i32,
}

impl Clone for HologramLine {
    fn clone(&self) -> (r: Self)
        ensures
            r == *self,
    {
        HologramLine { text: self.text.clone(), entity_id: self.entity_id }
    }
}

/// One presence proxy: the persisted fields (`id`, `name`, `location`,
/// `skin`, `look_at_nearest`, label texts, `server`) together with the
/// runtime-only identity and entity handles, which are recomputed on load
/// and never written out.
pub struct Npc {
    pub id: u32,
    pub name: String,
    pub uuid: u128,
    pub entity_id: i32,
    pub location: NpcLocation,
    pub skin: Option<NpcSkin>,
    pub look_at_nearest: bool,
    pub holograms: Vec<HologramLine>,
    pub server: Option<String>,
}

impl Clone for Npc {
    fn clone(&self) -> (r: Self)
        ensures
            r.id == self.id,
            r.name == self.name,
            r.uuid == self.uuid,
            r.entity_id == self.entity_id,
            r.location == self.location,
            r.skin == self.skin,
            r.look_at_nearest == self.look_at_nearest,
            r.holograms@ == self.holograms@,
            r.server == self.server,
    {
        let skin = match &self.skin {
            Some(s) => Some(s.clone()),
            None => None,
        };
        let server = match &self.server {
            Some(s) => Some(s.clone()),
            None => None,
        };
        let mut holograms: Vec<HologramLine> = Vec::new();
        let mut i: usize = 0;
        while i < self.holograms.len()
            invariant
                i <= self.holograms@.len(),
                holograms@ =~= self.holograms@.take(i as int),
            decreases self.holograms@.len() - i,
        {
            holograms.push(self.holograms[i].clone());
            proof {
                assert(holograms@ =~= self.holograms@.take(i as int).push(
                    self.holograms@[i as int],
                ));
                assert(self.holograms@.take(i + 1) =~= self.holograms@.take(i as int).push(
                    self.holograms@[i as int],
                ));
            }
            i = i + 1;
        }
        proof {
            assert(self.holograms@.take(self.holograms@.len() as int) =~= self.holograms@);
        }
        Npc {
            id: self.id,
            name: self.name.clone(),
            uuid: self.uuid,
            entity_id: self.entity_id,
            location: self.location,
            skin,
            look_at_nearest: self.look_at_nearest,
            holograms,
            server,
        }
    }
}

/// The name under which a proxy's identity is derived: the bytes of
/// `npc:` followed by the decimal `id`.
pub open spec fn npc_tag_bytes(id: int) -> Seq<u8> {
    seq![0x6Eu8, 0x70u8, 0x63u8, 0x3Au8] + dec_bytes(id)
}

/// The name under which a label line's throwaway identity is derived: the
/// bytes of `hologram:` followed by the decimal entity handle.
pub open spec fn hologram_tag_bytes(handle: int) -> Seq<u8> {
    seq![0x68u8, 0x6Fu8, 0x6Cu8, 0x6Fu8, 0x67u8, 0x72u8, 0x61u8, 0x6Du8, 0x3Au8]
        + sdec_bytes(handle)
}

/// The name-based UUID (as its 128-bit big-endian value) derived in the DNS
/// namespace from the given name bytes. A pure function of its argument:
/// the same name gives the same identity in every process.
pub uninterp spec fn uuid_v5_of(name: Seq<u8>) -> u128;

/// Relies on `uuid::Uuid::new_v5` (a deterministic SHA-1 name-based UUID of
/// namespace and name, RFC 9562 section 6.5) and `uuid::Uuid::as_u128` (the
/// UUID's bytes read big-endian).
#[verifier::external_body]
fn uuid_v5_dns(name: &Vec<u8>) -> (r: u128)
    ensures
        r == uuid_v5_of(name@),
{
    uuid::Uuid::new_v5(&uuid::Uuid::NAMESPACE_DNS, name.as_slice()).as_u128()
}

/// The stable identity of the proxy with the given `id`: a pure function of
/// the `id` alone, so it is identical after every restart without being
/// stored.
pub open spec fn npc_identity(id: u32) -> u128 {
    uuid_v5_of(npc_tag_bytes(id as int))
}

/// The throwaway identity of a label entity, derived from its handle.
pub open spec fn hologram_identity(handle: i32) -> u128 {
    uuid_v5_of(hologram_tag_bytes(handle as int))
}

/// Derives the stable identity for a proxy `id`.
pub fn npc_uuid(id: u32) -> (r: u128)
    ensures
        r == npc_identity(id),
{
    let mut name: Vec<u8> = Vec::new();
    name.push(0x6Eu8);
    name.push(0x70u8);
    name.push(0x63u8);
    name.push(0x3Au8);
    proof {
        assert(name@ =~= seq![0x6Eu8, 0x70u8, 0x63u8, 0x3Au8]);
    }
    append_u64_bytes(&mut name, id as u64);
    proof {
        assert(name@ =~= npc_tag_bytes(id as int));
    }
    uuid_v5_dns(&name)
}

/// Derives the throwaway identity for a label entity handle.
pub fn hologram_uuid(handle: i32) -> (r: u128)
    ensures
        r == hologram_identity(handle),
{
    let mut name: Vec<u8> = Vec::new();
    name.push(0x68u8);
    name.push(0x6Fu8);
    name.push(0x6Cu8);
    name.push(0x6Fu8);
    name.push(0x67u8);
    name.push(0x72u8);
    name.push(0x61u8);
    name.push(0x6Du8);
    name.push(0x3Au8);
    proof {
        assert(name@ =~= seq![0x68u8, 0x6Fu8, 0x6Cu8, 0x6Fu8, 0x67u8, 0x72u8, 0x61u8, 0x6Du8, 0x3Au8]);
    }
    append_i64_bytes(&mut name, handle as i64);
    proof {
        assert(name@ =~= hologram_tag_bytes(handle as int));
    }
    uuid_v5_dns(&name)
}

/// Hands out process-lifetime entity handles, counting downward from
/// -1000 so they never collide with the host's own handle counter, which
/// counts upward from zero. Handles are never reused within a process
/// (until the counter would leave the `i32` range, where it stops moving).
pub struct HandleAllocator {
    next: i32,
}

impl HandleAllocator {
    /// The handle the next allocation will return.
    pub closed spec fn current(self) -> int {
        self.next as int
    }

    pub open spec fn wf(self) -> bool {
        self.current() <= -1000
    }

    pub fn new() -> (r: Self)
        ensures
            r.wf(),
            r.current() == -1000,
    {
        HandleAllocator { next: -1000 }
    }

    /// Hands out the next handle. Handles strictly decrease until the
    /// counter reaches the bottom of the range.
    pub fn next_entity_id(&mut self) -> (h: i32)
        requires
            old(self).wf(),
        ensures
            final(self).wf(),
            h as int == old(self).current(),
            old(self).current() > i32::MIN ==> final(self).current() == old(self).current() - 1,
            old(self).current() == i32::MIN ==> final(self).current() == old(self).current(),
    {
        let h = self.next;
        if self.next > i32::MIN {
            self.next = self.next - 1;
        }
        h
    }
}

/// Two records agree on every field, label lines compared by value. This
/// is what a copy guarantees: a clone's label vector is a fresh allocation,
/// so copies are compared field by field rather than as one value.
pub open spec fn same_npc(a: Npc, b: Npc) -> bool {
    &&& a.id == b.id
    &&& a.name == b.name
    &&& a.uuid == b.uuid
    &&& a.entity_id == b.entity_id
    &&& a.location == b.location
    &&& a.skin == b.skin
    &&& a.look_at_nearest == b.look_at_nearest
    &&& a.holograms@ == b.holograms@
    &&& a.server == b.server
}

/// The persisted fields of a record, with the runtime-only identity and
/// handles erased. Two records that agree here are the same record on disk.
pub open spec fn persisted_eq(a: Npc, b: Npc) -> bool {
    &&& a.id == b.id
    &&& a.name@ == b.name@
    &&& a.location == b.location
    &&& skin_eq(a.skin, b.skin)
    &&& a.look_at_nearest == b.look_at_nearest
    &&& a.holograms@.len() == b.holograms@.len()
    &&& (forall|i: int|
        0 <= i < a.holograms@.len() ==> #[trigger] a.holograms@[i].text@ == b.holograms@[i].text@)
    &&& server_eq(a.server, b.server)
}

pub open spec fn skin_eq(a: Option<NpcSkin>, b: Option<NpcSkin>) -> bool {
    match (a, b) {
        (Some(x), Some(y)) => x.textures@ == y.textures@ && x.signature@ == y.signature@,
        (None, None) => true,
        _ => false,
    }
}

pub open spec fn server_eq(a: Option<String>, b: Option<String>) -> bool {
    match (a, b) {
        (Some(x), Some(y)) => x@ == y@,
        (None, None) => true,
        _ => false,
    }
}

impl Npc {
    /// A freshly created record: identity derived from the `id`, a fresh
    /// entity handle, no labels, no linked server, facing behavior off.
    pub fn new(id: u32, name: String, location: NpcLocation, skin: Option<NpcSkin>, alloc: &mut HandleAllocator) -> (r: Npc)
        requires
            old(alloc).wf(),
        ensures
            final(alloc).wf(),
            r.id == id,
            r.name == name,
            r.uuid == npc_identity(id),
            r.entity_id as int == old(alloc).current(),
            r.location == location,
            r.skin == skin,
            !r.look_at_nearest,
            r.holograms@.len() == 0,
            r.server is None,
            old(alloc).current() > i32::MIN ==> final(alloc).current() == old(alloc).current() - 1,
    {
        let uuid = npc_uuid(id);
        let entity_id = alloc.next_entity_id();
        Npc {
            id,
            name,
            uuid,
            entity_id,
            location,
            skin,
            look_at_nearest: false,
            holograms: Vec::new(),
            server: None,
        }
    }

    /// Re-derives the identity and hands out fresh entity handles for the
    /// record and each of its label lines, leaving every persisted field
    /// as it was. Performed on every load before a record is usable.
    /// While the allocator has room, the record takes the allocator's
    /// current handle and label line `k` the handle `k + 1` below it, so
    /// every handle is distinct from every other and from any handle the
    /// allocator hands out later.
    pub fn init_runtime_fields(&mut self, alloc: &mut HandleAllocator)
        requires
            old(alloc).wf(),
        ensures
            final(alloc).wf(),
            persisted_eq(*final(self), *old(self)),
            final(self).uuid == npc_identity(final(self).id),
            final(self).entity_id as int == old(alloc).current(),
            final(alloc).current() <= old(alloc).current(),
            old(alloc).current() - 1 - old(self).holograms@.len() >= i32::MIN ==> {
                &&& final(alloc).current() == old(alloc).current() - 1 - old(self).holograms@.len()
                &&& forall|k: int|
                    0 <= k < final(self).holograms@.len()
                        ==> (#[trigger] final(self).holograms@[k]).entity_id as int == old(
                        alloc,
                    ).current() - 1 - k
            },
    {
        let ghost room = old(alloc).current() - 1 - old(self).holograms@.len() >= i32::MIN;
        self.uuid = npc_uuid(self.id);
        self.entity_id = alloc.next_entity_id();
        let ghost orig = *self;
        let mut i: usize = 0;
        while i < self.holograms.len()
            invariant
                alloc.wf(),
                i <= self.holograms@.len(),
                self.holograms@.len() == orig.holograms@.len(),
                forall|k: int|
                    0 <= k < self.holograms@.len() ==> #[trigger] self.holograms@[k].text
                        == orig.holograms@[k].text,
                self.id == orig.id,
                self.name == orig.name,
                self.uuid == orig.uuid,
                self.entity_id == orig.entity_id,
                self.location == orig.location,
                self.skin == orig.skin,
                self.look_at_nearest == orig.look_at_nearest,
                self.server == orig.server,
                alloc.current() <= old(alloc).current(),
                room == (old(alloc).current() - 1 - orig.holograms@.len() >= i32::MIN),
                room ==> alloc.current() == old(alloc).current() - 1 - i,
                room ==> forall|k: int|
                    0 <= k < i ==> (#[trigger] self.holograms@[k]).entity_id as int == old(
                        alloc,
                    ).current() - 1 - k,
            decreases self.holograms@.len() - i,
        {
            let h = alloc.next_entity_id();
            let text = self.holograms[i].text.clone();
            self.holograms.set(i, HologramLine { text, entity_id: h });
            i = i + 1;
        }
    }
}

} // verus!
