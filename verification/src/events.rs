//! The decision cores of the session event handlers: what to spawn for a
//! joining session, which proxies to turn after a move, and where to
//! transfer a session that interacted with a proxy.

use vstd::prelude::*;

use crate::model::{Npc, COORD_LIMIT, same_npc};
use crate::registry::NpcRegistry;

verus! {

/// On session join, every proxy is resynced to the new session.
pub struct JoinHandler;

impl JoinHandler {
    /// The records to spawn for a joining session: all of them, in order.
    pub fn proxies_to_spawn(reg: &NpcRegistry) -> (r: Vec<Npc>)
        ensures
            r@.len() == reg.records().len(),
            forall|i: int| 0 <= i < r@.len() ==> same_npc(#[trigger] r@[i], reg.records()[i]),
    {
        reg.all()
    }
}

/// A proxy is turned toward a moving session only with the facing behavior
/// set and the session within 32 blocks horizontally.
pub open spec fn should_turn(n: Npc, px: int, pz: int) -> bool {
    &&& n.look_at_nearest
    &&& (n.location.x - px) * (n.location.x - px) + (n.location.z - pz) * (n.location.z - pz)
        <= 1_024_000_000
}

/// On session move, the proxies with facing behavior within range are
/// re-oriented toward the session.
pub struct MoveHandler;

impl MoveHandler {
    /// The records to turn toward a session at `(px, pz)` (thousandths of
    /// a block): exactly the stored records that should turn, in order.
    pub fn npcs_to_turn(reg: &NpcRegistry, px: i64, pz: i64) -> (r: Vec<Npc>)
        requires
            reg.wf(),
            -COORD_LIMIT <= px <= COORD_LIMIT,
            -COORD_LIMIT <= pz <= COORD_LIMIT,
        ensures
            r@.len() == reg.records().filter(
                |n: Npc| should_turn(n, px as int, pz as int),
            ).len(),
            forall|i: int|
                0 <= i < r@.len() ==> same_npc(
                    #[trigger] r@[i],
                    reg.records().filter(|n: Npc| should_turn(n, px as int, pz as int))[i],
                ),
    {
        let candidates = reg.all();
        let ghost pred = |n: Npc| should_turn(n, px as int, pz as int);
        let mut out: Vec<Npc> = Vec::new();
        let mut i: usize = 0;
        proof {
            assert(reg.records().take(0).filter(pred) =~= Seq::<Npc>::empty());
        }
        while i < candidates.len()
            invariant
                reg.wf(),
                -COORD_LIMIT <= px <= COORD_LIMIT,
                -COORD_LIMIT <= pz <= COORD_LIMIT,
                candidates@.len() == reg.records().len(),
                forall|k: int|
                    0 <= k < candidates@.len() ==> same_npc(
                        #[trigger] candidates@[k],
                        reg.records()[k],
                    ),
                i <= candidates@.len(),
                out@.len() == reg.records().take(i as int).filter(
                    |n: Npc| should_turn(n, px as int, pz as int),
                ).len(),
                forall|k: int|
                    0 <= k < out@.len() ==> same_npc(
                        #[trigger] out@[k],
                        reg.records().take(i as int).filter(
                            |n: Npc| should_turn(n, px as int, pz as int),
                        )[k],
                    ),
            decreases candidates@.len() - i,
        {
            let ghost prefix = reg.records().take(i as int);
            let ghost next_prefix = reg.records().take(i as int + 1);
            proof {
                assert(next_prefix.drop_last() =~= prefix);
                assert(next_prefix.last() == reg.records()[i as int]);
                reveal_with_fuel(Seq::filter, 2);
            }
            let n = &candidates[i];
            let dx = (n.location.x - px) as i128;
            let dz = (n.location.z - pz) as i128;
            proof {
                assert(dx * dx <= 0x10000000000000000000000 && dz * dz
                    <= 0x10000000000000000000000 && dx * dx >= 0 && dz * dz >= 0)
                    by (nonlinear_arith)
                    requires
                        -137438954372 <= dx <= 137438954372,
                        -137438954372 <= dz <= 137438954372,
                ;
            }
            let hd2: i128 = dx * dx + dz * dz;
            if n.look_at_nearest && hd2 <= 1_024_000_000 {
                proof {
                    assert(should_turn(reg.records()[i as int], px as int, pz as int));
                }
                out.push(candidates[i].clone());
            } else {
                proof {
                    assert(!should_turn(reg.records()[i as int], px as int, pz as int));
                }
            }
            i = i + 1;
        }
        proof {
            assert(reg.records().take(reg.records().len() as int) =~= reg.records());
        }
        out
    }
}

/// On interaction with an unknown entity, a session is transferred to the
/// linked backend of the proxy that carries the interacted handle.
pub struct InteractHandler;

impl InteractHandler {
    /// The backend name to carry in the transfer payload: set only for a
    /// genuine interact action on a handle that belongs to a proxy with a
    /// linked server.
    pub fn transfer_target(reg: &NpcRegistry, entity_id: i32, is_interact: bool) -> (r: Option<
        String,
    >)
        ensures
            match r {
                Some(s) => {
                    &&& is_interact
                    &&& exists|i: int|
                        {
                            &&& 0 <= i < reg.records().len()
                            &&& (#[trigger] reg.records()[i]).entity_id == entity_id
                            &&& reg.records()[i].server matches Some(v) && v@ == s@
                        }
                },
                None => {
                    ||| !is_interact
                    ||| (forall|i: int|
                        0 <= i < reg.records().len() ==> (#[trigger] reg.records()[i]).entity_id
                            != entity_id)
                    ||| (exists|i: int|
                        {
                            &&& 0 <= i < reg.records().len()
                            &&& (#[trigger] reg.records()[i]).entity_id == entity_id
                            &&& reg.records()[i].server is None
                        })
                },
            },
    {
        if !is_interact {
            return None;
        }
        let npc = match reg.get_by_entity_id(entity_id) {
            Some(n) => n,
            None => {
                return None;
            },
        };
        match npc.server {
            Some(s) => Some(s),
            None => None,
        }
    }
}

} // verus!
