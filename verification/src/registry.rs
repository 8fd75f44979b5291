//! The registry of presence proxies: the single source of truth for their
//! state. Records are kept ordered by ascending `id`; the `id` counter only
//! moves forward, so ids are never reused while a record exists.

use vstd::prelude::*;

use crate::model::{Npc, NpcLocation, NpcSkin, HologramLine, HandleAllocator, npc_identity, same_npc, persisted_eq};
use crate::persist::{render_npcs, parse_npcs, render_file, parse_file, precs_of, prec_of, PRec, prec_bounded};

verus! {

/// The proxy an operator selection sequence binds a player to: the first
/// entry with the player's identity, if any.
pub open spec fn sel_lookup(s: Seq<(u128, u32)>, player: u128) -> Option<u32>
    decreases s.len(),
{
    if s.len() == 0 {
        None
    } else if s[0].0 == player {
        Some(s[0].1)
    } else {
        sel_lookup(s.skip(1), player)
    }
}

pub struct NpcRegistry {
    npcs: Vec<Npc>,
    next_id: u32,
    alloc: HandleAllocator,
    selected: Vec<(u128, u32)>,
}

impl NpcRegistry {
    /// The stored records, in ascending `id` order.
    pub closed spec fn records(self) -> Seq<Npc> {
        self.npcs@
    }

    /// The `id` the next created record will receive.
    pub closed spec fn next(self) -> int {
        self.next_id as int
    }

    /// The per-operator selection entries, oldest first.
    pub closed spec fn selections(self) -> Seq<(u128, u32)> {
        self.selected@
    }

    pub closed spec fn alloc_state(self) -> HandleAllocator {
        self.alloc
    }

    pub open spec fn wf(self) -> bool {
        &&& 1 <= self.next() <= u32::MAX
        &&& (forall|i: int, j: int|
            0 <= i < j < self.records().len() ==> #[trigger] self.records()[i].id
                < #[trigger] self.records()[j].id)
        &&& (forall|i: int|
            0 <= i < self.records().len() ==> (#[trigger] self.records()[i].id as int)
                < self.next())
        &&& (forall|i: int|
            0 <= i < self.records().len() ==> #[trigger] self.records()[i].uuid == npc_identity(
                self.records()[i].id,
            ))
        &&& (forall|i: int|
            0 <= i < self.records().len() ==> (#[trigger] self.records()[i].location).wf())
        &&& self.alloc_state().wf()
    }

    pub fn new() -> (r: Self)
        ensures
            r.wf(),
            r.records().len() == 0,
            r.next() == 1,
            r.selections().len() == 0,
    {
        NpcRegistry {
            npcs: Vec::new(),
            next_id: 1,
            alloc: HandleAllocator::new(),
            selected: Vec::new(),
        }
    }

    /// How many records are stored.
    pub fn records_len(&self) -> (n: usize)
        ensures
            n == self.records().len(),
    {
        self.npcs.len()
    }

    /// Whether another `id` can still be allocated; `create` demands it.
    pub fn can_create(&self) -> (r: bool)
        ensures
            r == (self.next() < u32::MAX),
    {
        self.next_id < 0xFFFF_FFFFu32
    }

    /// The index of the record with the given `id`, if it is stored.
    fn find_index(&self, id: u32) -> (r: Option<usize>)
        ensures
            match r {
                Some(i) => i < self.records().len() && self.records()[i as int].id == id,
                None => forall|i: int|
                    0 <= i < self.records().len() ==> #[trigger] self.records()[i].id != id,
            },
    {
        let mut i: usize = 0;
        while i < self.npcs.len()
            invariant
                i <= self.records().len(),
                forall|k: int| 0 <= k < i ==> #[trigger] self.records()[k].id != id,
            decreases self.records().len() - i,
        {
            if self.npcs[i].id == id {
                return Some(i);
            }
            i = i + 1;
        }
        None
    }

    /// Allocates the next `id`, builds the record, stores it, and returns a
    /// copy. The new `id` is above every stored one and is never handed out
    /// again while the record exists.
    pub fn create(&mut self, name: String, location: NpcLocation, skin: Option<NpcSkin>) -> (r:
        Npc)
        requires
            old(self).wf(),
            old(self).next() < u32::MAX,
            location.wf(),
        ensures
            final(self).wf(),
            final(self).next() == old(self).next() + 1,
            final(self).records().len() == old(self).records().len() + 1,
            final(self).records().take(old(self).records().len() as int) == old(self).records(),
            same_npc(r, final(self).records().last()),
            r.id as int == old(self).next(),
            r.name == name,
            r.uuid == npc_identity(r.id),
            r.location == location,
            r.skin == skin,
            !r.look_at_nearest,
            r.holograms@.len() == 0,
            r.server is None,
            final(self).selections() == old(self).selections(),
    {
        let id = self.next_id;
        self.next_id = self.next_id + 1;
        let npc = Npc::new(id, name, location, skin, &mut self.alloc);
        let stored = npc.clone();
        self.npcs.push(stored);
        proof {
            assert(self.records().take(old(self).records().len() as int) =~= old(
                self,
            ).records());
        }
        npc
    }

    /// Removes and returns the record with the given `id`, if present. The
    /// `id` counter does not move, so the freed `id` is not reused.
    pub fn remove(&mut self, id: u32) -> (r: Option<Npc>)
        requires
            old(self).wf(),
        ensures
            final(self).wf(),
            final(self).next() == old(self).next(),
            final(self).selections() == old(self).selections(),
            match r {
                Some(n) => exists|i: int|
                    {
                        &&& 0 <= i < old(self).records().len()
                        &&& old(self).records()[i].id == id
                        &&& n == old(self).records()[i]
                        &&& final(self).records() == old(self).records().remove(i)
                    },
                None => {
                    &&& final(self).records() == old(self).records()
                    &&& forall|i: int|
                        0 <= i < old(self).records().len() ==> #[trigger] old(
                            self,
                        ).records()[i].id != id
                },
            },
    {
        match self.find_index(id) {
            Some(i) => {
                let n = self.npcs.remove(i);
                proof {
                    assert(self.records() =~= old(self).records().remove(i as int));
                }
                Some(n)
            },
            None => None,
        }
    }

    /// A copy of the record with the given `id`, if present.
    pub fn get(&self, id: u32) -> (r: Option<Npc>)
        ensures
            match r {
                Some(n) => exists|i: int|
                    {
                        &&& 0 <= i < self.records().len()
                        &&& #[trigger] self.records()[i].id == id
                        &&& same_npc(n, self.records()[i])
                    },
                None => forall|i: int|
                    0 <= i < self.records().len() ==> #[trigger] self.records()[i].id != id,
            },
    {
        match self.find_index(id) {
            Some(i) => Some(self.npcs[i].clone()),
            None => None,
        }
    }

    /// A copy of the record whose proxy entity carries the given handle,
    /// if any does.
    pub fn get_by_entity_id(&self, entity_id: i32) -> (r: Option<Npc>)
        ensures
            match r {
                Some(n) => exists|i: int|
                    {
                        &&& 0 <= i < self.records().len()
                        &&& #[trigger] self.records()[i].entity_id == entity_id
                        &&& same_npc(n, self.records()[i])
                    },
                None => forall|i: int|
                    0 <= i < self.records().len() ==> #[trigger] self.records()[i].entity_id
                        != entity_id,
            },
    {
        let mut i: usize = 0;
        while i < self.npcs.len()
            invariant
                i <= self.records().len(),
                forall|k: int| 0 <= k < i ==> #[trigger] self.records()[k].entity_id != entity_id,
            decreases self.records().len() - i,
        {
            if self.npcs[i].entity_id == entity_id {
                return Some(self.npcs[i].clone());
            }
            i = i + 1;
        }
        None
    }

    /// Copies of all records, in ascending `id` order.
    pub fn all(&self) -> (r: Vec<Npc>)
        ensures
            r@.len() == self.records().len(),
            forall|i: int| 0 <= i < r@.len() ==> same_npc(#[trigger] r@[i], self.records()[i]),
    {
        let mut out: Vec<Npc> = Vec::new();
        let mut i: usize = 0;
        while i < self.npcs.len()
            invariant
                i <= self.records().len(),
                out@.len() == i,
                forall|k: int| 0 <= k < i ==> same_npc(#[trigger] out@[k], self.records()[k]),
            decreases self.records().len() - i,
        {
            out.push(self.npcs[i].clone());
            i = i + 1;
        }
        out
    }

    /// Records an operator's targeted proxy, replacing any earlier choice.
    pub fn select(&mut self, player_uuid: u128, npc_id: u32)
        requires
            old(self).wf(),
        ensures
            final(self).wf(),
            final(self).records() == old(self).records(),
            final(self).next() == old(self).next(),
            sel_lookup(final(self).selections(), player_uuid) == Some(npc_id),
            forall|q: u128|
                q != player_uuid ==> #[trigger] sel_lookup(final(self).selections(), q)
                    == sel_lookup(old(self).selections(), q),
    {
        let mut i: usize = 0;
        while i < self.selected.len()
            invariant
                *self == *old(self),
                self.wf(),
                i <= self.selections().len(),
                forall|k: int| 0 <= k < i ==> (#[trigger] self.selections()[k]).0 != player_uuid,
            decreases self.selections().len() - i,
        {
            if self.selected[i].0 == player_uuid {
                let ghost pre = self.selected@;
                self.selected.set(i, (player_uuid, npc_id));
                proof {
                    lemma_sel_set(pre, i as int, player_uuid, npc_id);
                }
                return ;
            }
            i = i + 1;
        }
        let ghost pre = self.selected@;
        self.selected.push((player_uuid, npc_id));
        proof {
            lemma_sel_push(pre, player_uuid, npc_id);
        }
    }

    /// The proxy an operator last targeted, if any.
    pub fn get_selected(&self, player_uuid: u128) -> (r: Option<u32>)
        ensures
            r == sel_lookup(self.selections(), player_uuid),
    {
        let mut i: usize = 0;
        proof {
            assert(self.selections().skip(0) =~= self.selections());
        }
        while i < self.selected.len()
            invariant
                i <= self.selections().len(),
                sel_lookup(self.selections(), player_uuid) == sel_lookup(
                    self.selections().skip(i as int),
                    player_uuid,
                ),
                forall|k: int| 0 <= k < i ==> (#[trigger] self.selections()[k]).0 != player_uuid,
            decreases self.selections().len() - i,
        {
            let entry = self.selected[i];
            proof {
                assert(self.selections().skip(i as int)[0] == self.selections()[i as int]);
            }
            if entry.0 == player_uuid {
                return Some(entry.1);
            }
            proof {
                assert(self.selections().skip(i as int).skip(1) =~= self.selections().skip(
                    i as int + 1,
                ));
            }
            i = i + 1;
        }
        proof {
            assert(self.selections().skip(i as int) =~= Seq::<(u128, u32)>::empty());
        }
        None
    }

    /// Flips the facing behavior of the record with the given `id` and
    /// returns the new state, or `None` when no record has that `id`.
    pub fn toggle_look_at_nearest(&mut self, id: u32) -> (r: Option<bool>)
        requires
            old(self).wf(),
        ensures
            final(self).wf(),
            final(self).next() == old(self).next(),
            final(self).selections() == old(self).selections(),
            match r {
                Some(state) => exists|i: int|
                    {
                        &&& 0 <= i < old(self).records().len()
                        &&& old(self).records()[i].id == id
                        &&& state == !old(self).records()[i].look_at_nearest
                        &&& final(self).records() == old(self).records().update(
                            i,
                            (Npc { look_at_nearest: state, ..old(self).records()[i] }),
                        )
                    },
                None => {
                    &&& final(self).records() == old(self).records()
                    &&& forall|i: int|
                        0 <= i < old(self).records().len() ==> #[trigger] old(
                            self,
                        ).records()[i].id != id
                },
            },
    {
        match self.find_index(id) {
            Some(i) => {
                let rec = self.npcs.remove(i);
                let state = !rec.look_at_nearest;
                let updated = Npc { look_at_nearest: state, ..rec };
                self.npcs.insert(i, updated);
                proof {
                    assert(self.records() =~= old(self).records().update(
                        i as int,
                        (Npc { look_at_nearest: state, ..old(self).records()[i as int] }),
                    ));
                }
                Some(state)
            },
            None => None,
        }
    }

    /// Appends a label line with the given text and a fresh entity handle
    /// to the record with the given `id`, returning a copy of the updated
    /// record, or `None` when no record has that `id`.
    pub fn add_hologram(&mut self, id: u32, text: String) -> (r: Option<Npc>)
        requires
            old(self).wf(),
        ensures
            final(self).wf(),
            final(self).next() == old(self).next(),
            final(self).selections() == old(self).selections(),
            match r {
                Some(n) => exists|i: int|
                    {
                        &&& 0 <= i < old(self).records().len()
                        &&& old(self).records()[i].id == id
                        &&& final(self).records().len() == old(self).records().len()
                        &&& (forall|k: int|
                            0 <= k < old(self).records().len() && k != i ==> final(self).records()[k] == #[trigger] old(self).records()[k])
                        &&& same_npc(n, final(self).records()[i])
                        &&& final(self).records()[i].holograms@.len() == old(self).records()[i].holograms@.len() + 1
                        &&& final(self).records()[i].holograms@.last().text == text
                        &&& final(self).records()[i].holograms@.take(
                            old(self).records()[i].holograms@.len() as int,
                        ) == old(self).records()[i].holograms@
                        &&& (Npc {
                            holograms: final(self).records()[i].holograms,
                            ..final(self).records()[i]
                        }) == (Npc {
                            holograms: final(self).records()[i].holograms,
                            ..old(self).records()[i]
                        })
                    },
                None => {
                    &&& final(self).records() == old(self).records()
                    &&& forall|i: int|
                        0 <= i < old(self).records().len() ==> #[trigger] old(
                            self,
                        ).records()[i].id != id
                },
            },
    {
        match self.find_index(id) {
            Some(i) => {
                let rec = self.npcs.remove(i);
                let h = self.alloc.next_entity_id();
                let mut holograms = rec.holograms;
                let ghost before = holograms@;
                holograms.push(HologramLine { text, entity_id: h });
                let updated = Npc { holograms, ..rec };
                let copy = updated.clone();
                self.npcs.insert(i, updated);
                proof {
                    assert(self.records()[i as int].holograms@.take(before.len() as int)
                        =~= before);
                    assert(forall|k: int|
                        0 <= k < old(self).records().len() && k != i ==> self.records()[k]
                            == #[trigger] old(self).records()[k]);
                }
                Some(copy)
            },
            None => None,
        }
    }

    /// Links (or unlinks) the record with the given `id` to a named remote
    /// server, returning a copy of the updated record.
    pub fn set_server(&mut self, id: u32, server: Option<String>) -> (r: Option<Npc>)
        requires
            old(self).wf(),
        ensures
            final(self).wf(),
            final(self).next() == old(self).next(),
            final(self).selections() == old(self).selections(),
            match r {
                Some(n) => exists|i: int|
                    {
                        &&& 0 <= i < old(self).records().len()
                        &&& old(self).records()[i].id == id
                        &&& final(self).records() == old(self).records().update(
                            i,
                            (Npc { server: n.server, ..old(self).records()[i] }),
                        )
                        &&& same_npc(n, final(self).records()[i])
                        &&& n.server == server
                    },
                None => {
                    &&& final(self).records() == old(self).records()
                    &&& forall|i: int|
                        0 <= i < old(self).records().len() ==> #[trigger] old(
                            self,
                        ).records()[i].id != id
                },
            },
    {
        match self.find_index(id) {
            Some(i) => {
                let rec = self.npcs.remove(i);
                let updated = Npc { server, ..rec };
                let copy = updated.clone();
                self.npcs.insert(i, updated);
                proof {
                    assert(self.records() =~= old(self).records().update(
                        i as int,
                        (Npc { server: copy.server, ..old(self).records()[i as int] }),
                    ));
                }
                Some(copy)
            },
            None => None,
        }
    }

    /// Copies of the records with the facing behavior set: exactly the
    /// stored records that the orientation updater must turn, in order.
    pub fn look_at_nearest_npcs(&self) -> (r: Vec<Npc>)
        ensures
            r@.len() == self.records().filter(|n: Npc| n.look_at_nearest).len(),
            forall|i: int|
                0 <= i < r@.len() ==> same_npc(
                    #[trigger] r@[i],
                    self.records().filter(|n: Npc| n.look_at_nearest)[i],
                ),
    {
        let ghost pred = |n: Npc| n.look_at_nearest;
        let mut out: Vec<Npc> = Vec::new();
        let mut i: usize = 0;
        proof {
            assert(self.records().take(0).filter(pred) =~= Seq::<Npc>::empty());
        }
        while i < self.npcs.len()
            invariant
                i <= self.records().len(),
                out@.len() == self.records().take(i as int).filter(
                    |n: Npc| n.look_at_nearest,
                ).len(),
                forall|k: int|
                    0 <= k < out@.len() ==> same_npc(
                        #[trigger] out@[k],
                        self.records().take(i as int).filter(|n: Npc| n.look_at_nearest)[k],
                    ),
            decreases self.records().len() - i,
        {
            let ghost prefix = self.records().take(i as int);
            let ghost next_prefix = self.records().take(i as int + 1);
            proof {
                assert(next_prefix.drop_last() =~= prefix);
                assert(next_prefix.last() == self.records()[i as int]);
                reveal_with_fuel(Seq::filter, 2);
            }
            if self.npcs[i].look_at_nearest {
                out.push(self.npcs[i].clone());
            }
            i = i + 1;
        }
        proof {
            assert(self.records().take(i as int) =~= self.records());
        }
        out
    }
}

/// Law: every stored `id` is below the `id` counter, and `create` hands out
/// the counter itself, so no sequence of create and remove operations can
/// hand out an `id` twice while its record exists, and ids strictly
/// increase across creations.
pub proof fn lemma_created_id_fresh(reg: NpcRegistry)
    requires
        reg.wf(),
    ensures
        forall|i: int|
            0 <= i < reg.records().len() ==> (#[trigger] reg.records()[i].id as int) < reg.next(),
{
}

/// Law: the identity is a pure function of the `id`. Any two well-formed
/// registries — say, one before persisting and one after reloading — give a
/// record the same identity whenever it carries the same `id`.
pub proof fn lemma_identity_stable(r1: NpcRegistry, r2: NpcRegistry, i: int, j: int)
    requires
        r1.wf(),
        r2.wf(),
        0 <= i < r1.records().len(),
        0 <= j < r2.records().len(),
        r1.records()[i].id == r2.records()[j].id,
    ensures
        r1.records()[i].uuid == r2.records()[j].uuid,
{
}

/// Updating the first entry for a player rebinds that player and no other.
proof fn lemma_sel_set(s: Seq<(u128, u32)>, i: int, player: u128, v: u32)
    requires
        0 <= i < s.len(),
        s[i].0 == player,
        forall|k: int| 0 <= k < i ==> (#[trigger] s[k]).0 != player,
    ensures
        sel_lookup(s.update(i, (player, v)), player) == Some(v),
        forall|q: u128|
            q != player ==> #[trigger] sel_lookup(s.update(i, (player, v)), q) == sel_lookup(s, q),
    decreases i,
{
    let t = s.update(i, (player, v));
    if i == 0 {
        assert(t[0] == (player, v));
        assert forall|q: u128| q != player implies #[trigger] sel_lookup(t, q) == sel_lookup(
            s,
            q,
        ) by {
            assert(t.skip(1) =~= s.skip(1));
        }
    } else {
        lemma_sel_set(s.skip(1), i - 1, player, v);
        assert(t.skip(1) =~= s.skip(1).update(i - 1, (player, v)));
        assert(t[0] == s[0]);
        assert(s[0].0 != player);
        assert forall|q: u128| q != player implies #[trigger] sel_lookup(t, q) == sel_lookup(
            s,
            q,
        ) by {
            if t[0].0 == q {
            } else {
                assert(sel_lookup(t, q) == sel_lookup(t.skip(1), q));
            }
        }
    }
}

/// Appending an entry for an unbound player binds that player and no other.
proof fn lemma_sel_push(s: Seq<(u128, u32)>, player: u128, v: u32)
    requires
        forall|k: int| 0 <= k < s.len() ==> (#[trigger] s[k]).0 != player,
    ensures
        sel_lookup(s.push((player, v)), player) == Some(v),
        forall|q: u128|
            q != player ==> #[trigger] sel_lookup(s.push((player, v)), q) == sel_lookup(s, q),
    decreases s.len(),
{
    let t = s.push((player, v));
    if s.len() == 0 {
        assert(t[0] == (player, v));
        assert forall|q: u128| q != player implies #[trigger] sel_lookup(t, q) == sel_lookup(
            s,
            q,
        ) by {
            assert(sel_lookup(t, q) == sel_lookup(t.skip(1), q));
            assert(t.skip(1) =~= Seq::<(u128, u32)>::empty());
        }
    } else {
        lemma_sel_push(s.skip(1), player, v);
        assert(t.skip(1) =~= s.skip(1).push((player, v)));
        assert(t[0] == s[0]);
        assert(s[0].0 != player);
        assert forall|q: u128| q != player implies #[trigger] sel_lookup(t, q) == sel_lookup(
            s,
            q,
        ) by {
            if t[0].0 == q {
            } else {
                assert(sel_lookup(t, q) == sel_lookup(t.skip(1), q));
            }
        }
    }
}


/// The entity handles a record carries: its own, then its label lines'
/// in order.
pub open spec fn rec_handles(n: Npc) -> Seq<i32> {
    seq![n.entity_id] + Seq::new(n.holograms@.len(), |k: int| n.holograms@[k].entity_id)
}

/// How many handles loading these records draws from the allocator: one
/// per record and one per label line.
pub open spec fn handles_needed(rs: Seq<PRec>) -> int
    decreases rs.len(),
{
    if rs.len() == 0 {
        0
    } else {
        1 + rs[0].labels.len() + handles_needed(rs.skip(1))
    }
}

/// No two stored entity handles coincide, within or across records.
pub open spec fn handles_distinct(records: Seq<Npc>) -> bool {
    forall|i: int, j: int, a: int, b: int|
        0 <= i < records.len() && 0 <= j < records.len() && 0 <= a < rec_handles(
            records[i],
        ).len() && 0 <= b < rec_handles(records[j]).len() && (i != j || a != b)
            ==> #[trigger] rec_handles(records[i])[a] != #[trigger] rec_handles(records[j])[b]
}

/// One more record needs one more handle per record and label line.
proof fn lemma_handles_needed_snoc(rs: Seq<PRec>, k: int)
    requires
        0 <= k < rs.len(),
    ensures
        handles_needed(rs.take(k + 1)) == handles_needed(rs.take(k)) + 1 + rs[k].labels.len(),
    decreases k,
{
    if k == 0 {
        assert(rs.take(1)[0] == rs[0]);
        assert(rs.take(1).skip(1) =~= Seq::<PRec>::empty());
        assert(rs.take(0) =~= Seq::<PRec>::empty());
        assert(handles_needed(Seq::<PRec>::empty()) == 0);
    } else {
        lemma_handles_needed_snoc(rs.skip(1), k - 1);
        assert(rs.take(k + 1).skip(1) =~= rs.skip(1).take(k));
        assert(rs.take(k).skip(1) =~= rs.skip(1).take(k - 1));
        assert(rs.take(k + 1)[0] == rs[0]);
        assert(rs.take(k)[0] == rs[0]);
        assert(rs.skip(1)[k - 1] == rs[k]);
    }
}

/// Handle demand only grows with the prefix.
proof fn lemma_handles_needed_mono(rs: Seq<PRec>, k1: int, k2: int)
    requires
        0 <= k1 <= k2 <= rs.len(),
    ensures
        handles_needed(rs.take(k1)) <= handles_needed(rs.take(k2)),
    decreases k2 - k1,
{
    if k1 < k2 {
        lemma_handles_needed_mono(rs, k1, k2 - 1);
        lemma_handles_needed_snoc(rs, k2 - 1);
    }
}

/// Records whose handles descend in consecutive blocks from one counter
/// value carry pairwise distinct handles.
proof fn lemma_loaded_handles_distinct(records: Seq<Npc>, rs: Seq<PRec>, a0: int)
    requires
        records.len() == rs.len(),
        forall|m: int|
            0 <= m < records.len() ==> rec_handles(#[trigger] records[m]).len() == 1
                + rs[m].labels.len(),
        forall|m: int, a: int|
            0 <= m < records.len() && 0 <= a < rec_handles(records[m]).len()
                ==> #[trigger] rec_handles(records[m])[a] == a0 - handles_needed(rs.take(m)) - a,
    ensures
        handles_distinct(records),
{
    assert forall|i: int, j: int, a: int, b: int|
        0 <= i < records.len() && 0 <= j < records.len() && 0 <= a < rec_handles(
            records[i],
        ).len() && 0 <= b < rec_handles(records[j]).len() && (i != j || a != b) implies #[trigger] rec_handles(
        records[i],
    )[a] != #[trigger] rec_handles(records[j])[b] by {
        let v1 = a0 - handles_needed(rs.take(i)) - a;
        let v2 = a0 - handles_needed(rs.take(j)) - b;
        if i == j {
        } else if i < j {
            lemma_handles_needed_snoc(rs, i);
            lemma_handles_needed_mono(rs, i + 1, j);
            assert(a <= rs[i].labels.len());
            assert(v1 > v2);
        } else {
            lemma_handles_needed_snoc(rs, j);
            lemma_handles_needed_mono(rs, j + 1, i);
            assert(b <= rs[j].labels.len());
            assert(v2 > v1);
        }
    }
}

/// The parsed records carry strictly increasing ids, each with room left
/// above it in the id range.
pub open spec fn ids_loadable(rs: Seq<PRec>) -> bool {
    &&& (forall|i: int, j: int| 0 <= i < j < rs.len() ==> (#[trigger] rs[i].id) < (#[trigger] rs[j].id))
    &&& (forall|i: int| 0 <= i < rs.len() ==> (#[trigger] rs[i].id) < u32::MAX)
}

impl NpcRegistry {
    /// Renders the persisted snapshot of the registry: the records in
    /// ascending `id` order, runtime-only fields omitted.
    pub fn save(&self) -> (s: String)
        ensures
            s@ == render_file(precs_of(self.records())),
    {
        render_npcs(&self.npcs)
    }

    /// Loads a persisted snapshot into an empty registry: every record is
    /// stored with its identity re-derived and fresh entity handles, and
    /// the id counter is re-seeded to one past the highest loaded id. A
    /// malformed file (including one whose ids are out of order, repeated,
    /// or at the top of the id range) loads zero records. Returns how many
    /// records were loaded.
    pub fn load(&mut self, data: &str) -> (count: usize)
        requires
            old(self).wf(),
            old(self).records().len() == 0,
        ensures
            final(self).wf(),
            final(self).selections() == old(self).selections(),
            match parse_file(data@) {
                Some(rs) => {
                    if ids_loadable(rs) {
                        &&& count == rs.len()
                        &&& precs_of(final(self).records()) == rs
                        &&& (rs.len() > 0 ==> final(self).next() == rs.last().id + 1)
                        &&& (rs.len() == 0 ==> final(self).next() == old(self).next())
                        &&& (old(self).alloc_state().current() - handles_needed(rs) >= i32::MIN
                            ==> handles_distinct(final(self).records()))
                    } else {
                        &&& count == 0
                        &&& final(self).records() == old(self).records()
                        &&& final(self).next() == old(self).next()
                    }
                },
                None => {
                    &&& count == 0
                    &&& final(self).records() == old(self).records()
                    &&& final(self).next() == old(self).next()
                },
            },
    {
        let mut parsed = match parse_npcs(data) {
            Some(v) => v,
            None => {
                return 0;
            },
        };
        let ghost rs = precs_of(parsed@);
        // validate: strictly increasing ids, none at the top of the range
        let mut i: usize = 0;
        while i < parsed.len()
            invariant
                *self == *old(self),
                self.wf(),
                rs == precs_of(parsed@),
                parse_file(data@) == Some(rs),
                i <= parsed@.len(),
                forall|a: int, b: int|
                    0 <= a < b < i ==> (#[trigger] rs[a].id) < (#[trigger] rs[b].id),
                forall|a: int| 0 <= a < i ==> (#[trigger] rs[a].id) < u32::MAX,
                forall|a: int, b: int|
                    0 <= a < b < i ==> (#[trigger] parsed@[a].id) < (#[trigger] parsed@[b].id),
            decreases parsed@.len() - i,
        {
            if parsed[i].id >= 0xFFFF_FFFFu32 {
                proof {
                    assert(rs[i as int].id >= u32::MAX);
                    assert(!ids_loadable(rs));
                }
                return 0;
            }
            if i > 0 && parsed[i - 1].id >= parsed[i].id {
                proof {
                    assert(rs[i - 1].id >= rs[i as int].id);
                    assert(!ids_loadable(rs));
                }
                return 0;
            }
            proof {
                assert forall|a: int, b: int| 0 <= a < b < i + 1 implies (#[trigger] rs[a].id) < (
                #[trigger] rs[b].id) by {
                    if b == i {
                        if a < i - 1 {
                            assert(rs[a].id < rs[i - 1].id);
                        }
                    }
                }
                assert forall|a: int, b: int| 0 <= a < b < i + 1 implies (
                #[trigger] parsed@[a].id) < (#[trigger] parsed@[b].id) by {
                    assert(rs[a].id == parsed@[a].id);
                    assert(rs[b].id == parsed@[b].id);
                    assert(rs[a].id < rs[b].id);
                }
            }
            i = i + 1;
        }
        proof {
            assert(ids_loadable(rs));
        }
        let count = parsed.len();
        if count == 0 {
            proof {
                assert(precs_of(self.records()) =~= rs);
            }
            return 0;
        }
        // re-seed the id counter past the highest (last) id
        proof {
            assert(rs[count - 1].id == parsed@[count - 1].id);
            assert(rs[count - 1].id < u32::MAX);
        }
        let max_id = parsed[count - 1].id;
        self.next_id = max_id + 1;
        // store each record with fresh runtime fields
        let ghost a0 = self.alloc_state().current();
        let ghost room = a0 - handles_needed(rs) >= i32::MIN;
        proof {
            assert(a0 == old(self).alloc_state().current());
            assert(rs.take(0) =~= Seq::<PRec>::empty());
            assert(handles_needed(Seq::<PRec>::empty()) == 0);
        }
        let mut k: usize = 0;
        while k < parsed.len()
            invariant
                self.wf(),
                rs == precs_of(parsed@),
                parse_file(data@) == Some(rs),
                ids_loadable(rs),
                k <= parsed@.len(),
                parsed@.len() == rs.len(),
                rs.len() > 0,
                self.next() == rs.last().id + 1,
                self.selections() == old(self).selections(),
                self.records().len() == k,
                forall|a: int| 0 <= a < k ==> prec_of(#[trigger] self.records()[a]) == rs[a],
                forall|a: int| 0 <= a < k ==> (#[trigger] self.records()[a]).id == rs[a].id,
                forall|a: int|
                    0 <= a < parsed@.len() ==> (#[trigger] parsed@[a]).location.wf(),
                forall|a: int|
                    0 <= a < parsed@.len() ==> (#[trigger] parsed@[a]).uuid == 0,
                a0 == old(self).alloc_state().current(),
                room == (a0 - handles_needed(rs) >= i32::MIN),
                room ==> self.alloc_state().current() == a0 - handles_needed(
                    rs.take(k as int),
                ),
                room ==> forall|m: int|
                    0 <= m < k ==> rec_handles(#[trigger] self.records()[m]).len() == 1
                        + rs[m].labels.len(),
                room ==> forall|m: int, a: int|
                    0 <= m < k && 0 <= a < rec_handles(self.records()[m]).len()
                        ==> #[trigger] rec_handles(self.records()[m])[a] == a0 - handles_needed(
                        rs.take(m),
                    ) - a,
            decreases parsed@.len() - k,
        {
            let mut npc = parsed[k].clone();
            proof {
                assert(persisted_eq(npc, parsed@[k as int]));
                lemma_prec_persisted(npc, parsed@[k as int]);
                assert(prec_of(parsed@[k as int]) == rs[k as int]);
                assert(rs[k as int].id <= rs.last().id) by {
                    if k < parsed@.len() - 1 {
                        assert(rs[k as int].id < rs[rs.len() - 1].id);
                    }
                }
                assert(npc.holograms@.len() == rs[k as int].labels.len());
                if room {
                    lemma_handles_needed_snoc(rs, k as int);
                    lemma_handles_needed_mono(rs, k as int + 1, rs.len() as int);
                    assert(rs.take(rs.len() as int) =~= rs);
                    assert(self.alloc_state().current() - 1 - npc.holograms@.len()
                        >= i32::MIN);
                }
            }
            let ghost before = npc;
            let ghost cur = self.alloc_state().current();
            npc.init_runtime_fields(&mut self.alloc);
            proof {
                lemma_prec_persisted(npc, before);
                assert(prec_of(npc) == rs[k as int]);
                if room {
                    assert(self.alloc_state().current() == cur - 1 - before.holograms@.len());
                    assert(self.alloc_state().current() == a0 - handles_needed(
                        rs.take(k as int + 1),
                    ));
                    assert(rec_handles(npc).len() == 1 + rs[k as int].labels.len());
                    assert forall|a: int|
                        0 <= a < rec_handles(npc).len() implies #[trigger] rec_handles(npc)[a]
                        == cur - a by {
                        if a == 0 {
                            assert(rec_handles(npc)[0] == npc.entity_id);
                        } else {
                            assert(rec_handles(npc)[a] == npc.holograms@[a - 1].entity_id);
                            assert(npc.holograms@[a - 1].entity_id as int == cur - 1 - (a - 1));
                        }
                    }
                }
            }
            self.npcs.push(npc);
            k = k + 1;
        }
        proof {
            assert(precs_of(self.records()) =~= rs);
            if room {
                lemma_loaded_handles_distinct(self.records(), rs, a0);
            }
        }
        count
    }
}

/// Persisted views agree whenever the persisted fields agree.
proof fn lemma_prec_persisted(a: Npc, b: Npc)
    requires
        persisted_eq(a, b),
    ensures
        prec_of(a) == prec_of(b),
{
    assert(prec_of(a).labels =~= prec_of(b).labels);
    assert(prec_of(a).skin == prec_of(b).skin) by {
        match (a.skin, b.skin) {
            (Some(x), Some(y)) => {
                assert(x.textures@ == y.textures@);
            },
            _ => {},
        }
    }
    assert(prec_of(a).server == prec_of(b).server) by {
        match (a.server, b.server) {
            (Some(x), Some(y)) => {
                assert(x@ == y@);
            },
            _ => {},
        }
    }
}

/// Law: the persisted snapshot of a well-formed registry reads back as
/// exactly its records, and those records load cleanly, so saving, loading
/// and saving again writes the identical snapshot: save(load(save(R))) ==
/// save(R).
pub proof fn lemma_save_round_trip(reg: NpcRegistry)
    requires
        reg.wf(),
    ensures
        parse_file(render_file(precs_of(reg.records()))) == Some(precs_of(reg.records())),
        ids_loadable(precs_of(reg.records())),
{
    let rs = precs_of(reg.records());
    assert forall|k: int| 0 <= k < rs.len() implies prec_bounded(#[trigger] rs[k]) by {
        assert(reg.records()[k].location.wf());
    }
    crate::persist::lemma_parse_render(rs);
    assert forall|i: int, j: int| 0 <= i < j < rs.len() implies (#[trigger] rs[i].id) < (
    #[trigger] rs[j].id) by {
        assert(reg.records()[i].id < reg.records()[j].id);
    }
    assert forall|i: int| 0 <= i < rs.len() implies (#[trigger] rs[i].id) < u32::MAX by {
        assert((reg.records()[i].id as int) < reg.next());
        assert(reg.next() <= u32::MAX);
    }
}

} // verus!
