//! The decision cores of the operator commands. Each executor turns parsed
//! arguments and the current state into a structured outcome; the host
//! glue delivers prose and transport around these decisions.

use vstd::prelude::*;

use crate::digits::{dec_val, all_digits, parse_u32_str};
use crate::model::{Npc, NpcLocation, NpcSkin, same_npc, npc_identity};
use crate::registry::NpcRegistry;
use crate::geometry::{Viewpoint, pick, find_npc_in_crosshair, qualifies, strictly_better};
use crate::status::{ServerDirectory, ServerAddress, ServerStatus, StatusBoard, parse_address,
    render_address};

verus! {

/// Two candidate lists agree on everything the crosshair pick reads.
pub open spec fn same_candidates(a: Seq<Npc>, b: Seq<Npc>) -> bool {
    a.len() == b.len() && forall|k: int|
        0 <= k < a.len() ==> (#[trigger] a[k]).location == b[k].location && a[k].id == b[k].id
}

/// The pick reads only locations, so it agrees on agreeing lists.
pub proof fn lemma_pick_congruent(v: Viewpoint, a: Seq<Npc>, b: Seq<Npc>)
    requires
        same_candidates(a, b),
    ensures
        pick(v, a) == pick(v, b),
    decreases a.len(),
{
    if a.len() > 0 {
        assert forall|k: int|
            0 <= k < a.drop_last().len() implies (#[trigger] a.drop_last()[k]).location
            == b.drop_last()[k].location && a.drop_last()[k].id == b.drop_last()[k].id by {
            assert(a.drop_last()[k] == a[k]);
            assert(b.drop_last()[k] == b[k]);
        }
        lemma_pick_congruent(v, a.drop_last(), b.drop_last());
        crate::geometry::lemma_pick_qualifies(v, a.drop_last());
        let i = a.len() - 1;
        assert(a[i].location == b[i].location);
        assert(qualifies(v, a[i]) == qualifies(v, b[i]));
        match pick(v, a.drop_last()) {
            Some(j) => {
                assert(0 <= j < a.drop_last().len());
                assert(a.drop_last()[j] == a[j]);
                assert(b.drop_last()[j] == b[j]);
                assert(a[j].location == b[j].location);
                assert(strictly_better(v, a[i], a[j]) == strictly_better(v, b[i], b[j]));
            },
            None => {},
        }
    }
}

/// The create command's decision: allocate the next id and store the
/// record built from the invoking player's position and the fetched skin.
pub struct CreateExecutor;

impl CreateExecutor {
    /// Creates the record. The caller checks `can_create` first: the id
    /// counter must have room left.
    pub fn run(
        reg: &mut NpcRegistry,
        name: String,
        location: NpcLocation,
        skin: Option<NpcSkin>,
    ) -> (r: Npc)
        requires
            old(reg).wf(),
            old(reg).next() < u32::MAX,
            location.wf(),
        ensures
            final(reg).wf(),
            final(reg).next() == old(reg).next() + 1,
            final(reg).records().len() == old(reg).records().len() + 1,
            final(reg).records().take(old(reg).records().len() as int) == old(reg).records(),
            same_npc(r, final(reg).records().last()),
            r.id as int == old(reg).next(),
            r.name == name,
            r.uuid == npc_identity(r.id),
            r.location == location,
            r.skin == skin,
    {
        reg.create(name, location, skin)
    }
}

/// The outcome of the remove command.
pub enum RemoveOutcome {
    /// The argument is not a decimal id: reported, nothing changes.
    InvalidId,
    /// No record carries the id: signal 0, nothing changes.
    NotFound(u32),
    /// The record was removed: signal 1.
    Removed(Npc),
}

/// The remove command's decision: parse the id, remove the record.
pub struct RemoveExecutor;

impl RemoveExecutor {
    pub fn run(reg: &mut NpcRegistry, id_str: &str) -> (r: RemoveOutcome)
        requires
            old(reg).wf(),
        ensures
            final(reg).wf(),
            final(reg).next() == old(reg).next(),
            match r {
                RemoveOutcome::InvalidId => {
                    &&& final(reg).records() == old(reg).records()
                    &&& (id_str@.len() == 0 || !all_digits(id_str@) || dec_val(id_str@)
                        > u32::MAX)
                },
                RemoveOutcome::NotFound(id) => {
                    &&& final(reg).records() == old(reg).records()
                    &&& all_digits(id_str@) && dec_val(id_str@) == id as int
                    &&& forall|i: int|
                        0 <= i < old(reg).records().len() ==> #[trigger] old(
                            reg,
                        ).records()[i].id != id
                },
                RemoveOutcome::Removed(n) => exists|i: int|
                    {
                        &&& 0 <= i < old(reg).records().len()
                        &&& all_digits(id_str@) && dec_val(id_str@) == n.id as int
                        &&& old(reg).records()[i].id == n.id
                        &&& n == old(reg).records()[i]
                        &&& final(reg).records() == old(reg).records().remove(i)
                    },
            },
    {
        let id = match parse_u32_str(id_str) {
            Some(id) => id,
            None => {
                return RemoveOutcome::InvalidId;
            },
        };
        match reg.remove(id) {
            Some(n) => RemoveOutcome::Removed(n),
            None => RemoveOutcome::NotFound(id),
        }
    }
}

/// The list command's decision: a snapshot of every record, in id order;
/// its signal is the record count.
pub struct ListExecutor;

impl ListExecutor {
    pub fn run(reg: &NpcRegistry) -> (r: Vec<Npc>)
        ensures
            r@.len() == reg.records().len(),
            forall|i: int| 0 <= i < r@.len() ==> same_npc(#[trigger] r@[i], reg.records()[i]),
    {
        reg.all()
    }
}

/// The looknear command's decision: flip the facing behavior of the proxy
/// under the viewer's crosshair.
pub struct LookNearExecutor;

impl LookNearExecutor {
    /// `None` when no stored proxy is under the crosshair (nothing
    /// changes); otherwise the targeted id and its new facing state.
    pub fn run(reg: &mut NpcRegistry, viewer: &Viewpoint) -> (r: Option<(u32, bool)>)
        requires
            old(reg).wf(),
            viewer.wf(),
        ensures
            final(reg).wf(),
            final(reg).next() == old(reg).next(),
            match r {
                None => {
                    &&& final(reg).records() == old(reg).records()
                    &&& pick(*viewer, old(reg).records()) is None
                },
                Some(p) => {
                    &&& pick(*viewer, old(reg).records()) matches Some(j) && old(
                        reg,
                    ).records()[j].id == p.0
                    &&& exists|i: int|
                        {
                            &&& 0 <= i < old(reg).records().len()
                            &&& old(reg).records()[i].id == p.0
                            &&& p.1 == !old(reg).records()[i].look_at_nearest
                            &&& final(reg).records() == old(reg).records().update(
                                i,
                                (Npc {
                                    look_at_nearest: p.1,
                                    ..old(reg).records()[i]
                                }),
                            )
                        }
                },
            },
    {
        let all = reg.all();
        proof {
            lemma_pick_congruent(*viewer, all@, reg.records());
        }
        let id = match find_npc_in_crosshair(viewer, &all) {
            Some(id) => id,
            None => {
                return None;
            },
        };
        proof {
            crate::geometry::lemma_pick_qualifies(*viewer, reg.records());
        }
        match reg.toggle_look_at_nearest(id) {
            Some(state) => Some((id, state)),
            None => {
                proof {
                    let j = pick(*viewer, old(reg).records())->Some_0;
                    assert(old(reg).records()[j].id == id);
                }
                None
            },
        }
    }
}

/// The label command's decision: append a label line to the proxy under
/// the viewer's crosshair.
pub struct HologramAddExecutor;

impl HologramAddExecutor {
    /// `None` when no stored proxy is under the crosshair; otherwise a
    /// copy of the updated record, whose last label carries the text.
    pub fn run(reg: &mut NpcRegistry, viewer: &Viewpoint, text: String) -> (r: Option<Npc>)
        requires
            old(reg).wf(),
            viewer.wf(),
        ensures
            final(reg).wf(),
            final(reg).next() == old(reg).next(),
            match r {
                None => {
                    &&& final(reg).records() == old(reg).records()
                    &&& pick(*viewer, old(reg).records()) is None
                },
                Some(n) => exists|i: int|
                    {
                        &&& 0 <= i < old(reg).records().len()
                        &&& old(reg).records()[i].id == n.id
                        &&& same_npc(n, final(reg).records()[i])
                        &&& final(reg).records()[i].holograms@.len() == old(
                            reg,
                        ).records()[i].holograms@.len() + 1
                        &&& final(reg).records()[i].holograms@.last().text == text
                        &&& final(reg).records()[i].holograms@.take(
                            old(reg).records()[i].holograms@.len() as int,
                        ) == old(reg).records()[i].holograms@
                    },
            },
    {
        let all = reg.all();
        proof {
            lemma_pick_congruent(*viewer, all@, reg.records());
        }
        let id = match find_npc_in_crosshair(viewer, &all) {
            Some(id) => id,
            None => {
                return None;
            },
        };
        proof {
            crate::geometry::lemma_pick_qualifies(*viewer, reg.records());
        }
        match reg.add_hologram(id, text) {
            Some(n) => Some(n),
            None => {
                proof {
                    let j = pick(*viewer, old(reg).records())->Some_0;
                    assert(old(reg).records()[j].id == id);
                }
                None
            },
        }
    }
}

/// The outcome of registering a server.
pub enum ServerAddOutcome {
    /// The address is not a canonical `a.b.c.d:port`: reported, nothing
    /// changes.
    InvalidAddress,
    /// The server was registered (or its address replaced).
    Added(ServerAddress),
}

/// The server-registration command's decision.
pub struct ServerAddExecutor;

impl ServerAddExecutor {
    pub fn run(dir: &mut ServerDirectory, name: String, address_str: &str) -> (r: ServerAddOutcome)
        requires
            old(dir).wf(),
        ensures
            final(dir).wf(),
            match r {
                ServerAddOutcome::InvalidAddress => {
                    &&& final(dir).entries() == old(dir).entries()
                    &&& forall|ad: ServerAddress| address_str@ != #[trigger] render_address(ad)
                },
                ServerAddOutcome::Added(ad) => {
                    &&& address_str@ == render_address(ad)
                    &&& final(dir).address_of(name@) == Some(ad)
                    &&& forall|q: Seq<char>|
                        q != name@ ==> #[trigger] final(dir).address_of(q) == old(
                            dir,
                        ).address_of(q)
                },
            },
    {
        let ad = match parse_address(address_str) {
            Some(ad) => ad,
            None => {
                return ServerAddOutcome::InvalidAddress;
            },
        };
        dir.add_server(name, ad);
        ServerAddOutcome::Added(ad)
    }
}

/// The server-removal command's decision: signal 1 when the name was
/// registered, 0 otherwise.
pub struct ServerRemoveExecutor;

impl ServerRemoveExecutor {
    pub fn run(dir: &mut ServerDirectory, name: &str) -> (removed: bool)
        requires
            old(dir).wf(),
        ensures
            final(dir).wf(),
            removed == (old(dir).address_of(name@) is Some),
            final(dir).address_of(name@) is None,
            forall|q: Seq<char>|
                q != name@ ==> #[trigger] final(dir).address_of(q) == old(dir).address_of(q),
    {
        dir.remove_server(name)
    }
}

/// The server-listing command's decision: every registered server with its
/// address and current status, in name order; the signal is the count.
pub struct ServerListExecutor;

impl ServerListExecutor {
    pub fn run(dir: &ServerDirectory, board: &StatusBoard) -> (r: Vec<
        (String, ServerAddress, ServerStatus),
    >)
        requires
            dir.wf(),
        ensures
            r@.len() == dir.entries().len(),
            forall|k: int|
                0 <= k < r@.len() ==> {
                    let e = #[trigger] r@[k];
                    &&& e.0@ == dir.entries()[k].0@
                    &&& e.1 == dir.entries()[k].1
                    &&& e.2 == board.status_of(dir.entries()[k].0@)
                },
    {
        dir.list_servers(board)
    }
}

/// The outcome of linking a proxy to a server.
pub enum ServerSetOutcome {
    /// The name is not registered: reported, nothing changes.
    UnknownServer,
    /// No stored proxy is under the crosshair: nothing changes.
    NoTarget,
    /// The link was set: a copy of the updated record.
    Linked(Npc),
}

/// The server-link command's decision.
pub struct ServerSetExecutor;

impl ServerSetExecutor {
    pub fn run(
        reg: &mut NpcRegistry,
        dir: &ServerDirectory,
        viewer: &Viewpoint,
        server_name: String,
    ) -> (r: ServerSetOutcome)
        requires
            old(reg).wf(),
            viewer.wf(),
        ensures
            final(reg).wf(),
            final(reg).next() == old(reg).next(),
            match r {
                ServerSetOutcome::UnknownServer => {
                    &&& final(reg).records() == old(reg).records()
                    &&& dir.address_of(server_name@) is None
                },
                ServerSetOutcome::NoTarget => {
                    &&& final(reg).records() == old(reg).records()
                    &&& dir.address_of(server_name@) is Some
                    &&& pick(*viewer, old(reg).records()) is None
                },
                ServerSetOutcome::Linked(n) => {
                    &&& dir.address_of(server_name@) is Some
                    &&& n.server matches Some(s) && s@ == server_name@
                    &&& exists|i: int|
                        {
                            &&& 0 <= i < old(reg).records().len()
                            &&& old(reg).records()[i].id == n.id
                            &&& final(reg).records() == old(reg).records().update(
                                i,
                                (Npc { server: n.server, ..old(reg).records()[i] }),
                            )
                            &&& same_npc(n, final(reg).records()[i])
                        }
                },
            },
    {
        if !dir.has_server(server_name.as_str()) {
            return ServerSetOutcome::UnknownServer;
        }
        let ghost sname = server_name@;
        let all = reg.all();
        proof {
            lemma_pick_congruent(*viewer, all@, reg.records());
        }
        let id = match find_npc_in_crosshair(viewer, &all) {
            Some(id) => id,
            None => {
                return ServerSetOutcome::NoTarget;
            },
        };
        proof {
            crate::geometry::lemma_pick_qualifies(*viewer, reg.records());
        }
        match reg.set_server(id, Some(server_name)) {
            Some(n) => ServerSetOutcome::Linked(n),
            None => {
                proof {
                    let j = pick(*viewer, old(reg).records())->Some_0;
                    assert(old(reg).records()[j].id == id);
                }
                ServerSetOutcome::NoTarget
            },
        }
    }
}

} // verus!
