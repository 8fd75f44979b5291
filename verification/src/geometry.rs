//! Crosshair targeting: which proxy the viewer is looking at. Positions
//! are thousandths of a block; the view direction is a unit vector scaled
//! by 1000, so every test is exact integer arithmetic. A candidate
//! qualifies when its distance lies in `[0.1, 32]` blocks and the cosine
//! of the angle to the view direction exceeds 0.9; among qualifying
//! candidates the largest cosine wins, first seen on ties.

use vstd::prelude::*;

use crate::model::{Npc, COORD_LIMIT};

verus! {

/// The viewer's eye position (thousandths of a block) and view direction
/// (a unit vector scaled by 1000).
#[derive(Clone, Copy)]
pub struct Viewpoint {
    pub x: i64,
    pub y: i64,
    pub z: i64,
    pub lx: i64,
    pub ly: i64,
    pub lz: i64,
}

impl Viewpoint {
    pub open spec fn wf(self) -> bool {
        &&& -COORD_LIMIT <= self.x <= COORD_LIMIT
        &&& -COORD_LIMIT <= self.y <= COORD_LIMIT
        &&& -COORD_LIMIT <= self.z <= COORD_LIMIT
        &&& -4000 <= self.lx <= 4000
        &&& -4000 <= self.ly <= 4000
        &&& -4000 <= self.lz <= 4000
    }
}

/// The vector from the eye to a candidate's aim point, which sits 0.9
/// blocks above its feet.
pub open spec fn delta_x(v: Viewpoint, n: Npc) -> int {
    n.location.x - v.x
}

pub open spec fn delta_y(v: Viewpoint, n: Npc) -> int {
    n.location.y + 900 - v.y
}

pub open spec fn delta_z(v: Viewpoint, n: Npc) -> int {
    n.location.z - v.z
}

/// The squared distance to the aim point, in squared thousandths.
pub open spec fn dist_sq(v: Viewpoint, n: Npc) -> int {
    delta_x(v, n) * delta_x(v, n) + delta_y(v, n) * delta_y(v, n) + delta_z(v, n) * delta_z(v, n)
}

/// The unnormalized projection of the candidate direction onto the view
/// direction.
pub open spec fn raw_dot(v: Viewpoint, n: Npc) -> int {
    v.lx * delta_x(v, n) + v.ly * delta_y(v, n) + v.lz * delta_z(v, n)
}

pub open spec fn norm_l_sq(v: Viewpoint) -> int {
    v.lx * v.lx + v.ly * v.ly + v.lz * v.lz
}

/// The distance lies within `[0.1, 32]` blocks.
pub open spec fn in_range(v: Viewpoint, n: Npc) -> bool {
    10_000 <= dist_sq(v, n) <= 1_024_000_000
}

/// The candidate is in range and within the acceptance cone: the cosine of
/// its angle to the view direction exceeds 0.9, written without square
/// roots as `100 raw^2 > 81 |l|^2 d^2` with `raw > 0`.
pub open spec fn qualifies(v: Viewpoint, n: Npc) -> bool {
    &&& in_range(v, n)
    &&& raw_dot(v, n) > 0
    &&& 100 * raw_dot(v, n) * raw_dot(v, n) > 81 * norm_l_sq(v) * dist_sq(v, n)
}

/// Candidate `a` subtends a strictly larger cosine than `b` (both with
/// positive projections): `raw_a / |d_a| > raw_b / |d_b|`, cross-
/// multiplied with squares.
pub open spec fn strictly_better(v: Viewpoint, a: Npc, b: Npc) -> bool {
    raw_dot(v, a) * raw_dot(v, a) * dist_sq(v, b) > raw_dot(v, b) * raw_dot(v, b) * dist_sq(v, a)
}

/// The index of the picked candidate: among qualifying candidates, the
/// largest cosine, the earliest seen on ties.
pub open spec fn pick(v: Viewpoint, npcs: Seq<Npc>) -> Option<int>
    decreases npcs.len(),
{
    if npcs.len() == 0 {
        None
    } else {
        let prev = pick(v, npcs.drop_last());
        let i = npcs.len() - 1;
        if !qualifies(v, npcs[i]) {
            prev
        } else {
            match prev {
                None => Some(i),
                Some(j) => if strictly_better(v, npcs[i], npcs[j]) {
                    Some(i)
                } else {
                    Some(j)
                },
            }
        }
    }
}

/// The picked index is a qualifying candidate.
pub proof fn lemma_pick_qualifies(v: Viewpoint, npcs: Seq<Npc>)
    ensures
        match pick(v, npcs) {
            Some(i) => 0 <= i < npcs.len() && qualifies(v, npcs[i]),
            None => forall|k: int| 0 <= k < npcs.len() ==> !qualifies(v, #[trigger] npcs[k]),
        },
    decreases npcs.len(),
{
    if npcs.len() > 0 {
        lemma_pick_qualifies(v, npcs.drop_last());
        match pick(v, npcs) {
            Some(i) => {
                if i < npcs.len() - 1 {
                    assert(npcs.drop_last()[i] == npcs[i]);
                }
            },
            None => {
                assert forall|k: int| 0 <= k < npcs.len() implies !qualifies(
                    v,
                    #[trigger] npcs[k],
                ) by {
                    if k < npcs.len() - 1 {
                        assert(npcs.drop_last()[k] == npcs[k]);
                    }
                }
            },
        }
    }
}

/// Ratios of nonnegative numerators over positive denominators chain:
/// cross-multiplied, a bound through a middle ratio carries over.
proof fn lemma_ratio_trans(a1: int, b1: int, a2: int, b2: int, a3: int, b3: int)
    requires
        b1 > 0,
        b2 > 0,
        b3 > 0,
        a1 * b2 <= a2 * b1,
        a2 * b3 < a3 * b2,
    ensures
        a1 * b3 < a3 * b1,
{
    assert((a1 * b2) * b3 <= (a2 * b1) * b3) by (nonlinear_arith)
        requires
            b3 > 0,
            a1 * b2 <= a2 * b1,
    ;
    assert((a2 * b3) * b1 < (a3 * b2) * b1) by (nonlinear_arith)
        requires
            b1 > 0,
            a2 * b3 < a3 * b2,
    ;
    assert((a1 * b2) * b3 == (a1 * b3) * b2 && (a2 * b1) * b3 == (a2 * b3) * b1 && (a3 * b2) * b1
        == (a3 * b1) * b2) by (nonlinear_arith);
    assert((a1 * b3) * b2 < (a3 * b1) * b2);
    assert(a1 * b3 < a3 * b1) by (nonlinear_arith)
        requires
            b2 > 0,
            (a1 * b3) * b2 < (a3 * b1) * b2,
    ;
}

/// No qualifying candidate subtends a strictly larger cosine than the
/// picked one.
pub proof fn lemma_pick_best(v: Viewpoint, npcs: Seq<Npc>)
    ensures
        match pick(v, npcs) {
            Some(i) => forall|k: int|
                0 <= k < npcs.len() && qualifies(v, #[trigger] npcs[k]) ==> !strictly_better(
                    v,
                    npcs[k],
                    npcs[i],
                ),
            None => true,
        },
    decreases npcs.len(),
{
    if npcs.len() > 0 {
        lemma_pick_best(v, npcs.drop_last());
        lemma_pick_qualifies(v, npcs.drop_last());
        lemma_pick_qualifies(v, npcs);
        let last = npcs.len() - 1;
        match pick(v, npcs) {
            Some(i) => {
                assert forall|k: int|
                    0 <= k < npcs.len() && qualifies(v, #[trigger] npcs[k]) implies !strictly_better(
                    v,
                    npcs[k],
                    npcs[i],
                ) by {
                    if k < last {
                        assert(npcs.drop_last()[k] == npcs[k]);
                    }
                    if i < last {
                        assert(npcs.drop_last()[i] == npcs[i]);
                    }
                    if k == i {
                        assert(!strictly_better(v, npcs[k], npcs[i]));
                    } else if i == last && qualifies(v, npcs[last]) {
                        match pick(v, npcs.drop_last()) {
                            Some(j) => {
                                if k < last {
                                    // through the previous best: k is no
                                    // better than j, and the last strictly
                                    // beats j
                                    assert(npcs.drop_last()[j] == npcs[j]);
                                    if strictly_better(v, npcs[k], npcs[i]) {
                                        assert(!strictly_better(v, npcs[k], npcs[j]));
                                        assert(strictly_better(v, npcs[last], npcs[j]));
                                        lemma_ratio_trans(
                                            raw_dot(v, npcs[k]) * raw_dot(v, npcs[k]),
                                            dist_sq(v, npcs[k]),
                                            raw_dot(v, npcs[j]) * raw_dot(v, npcs[j]),
                                            dist_sq(v, npcs[j]),
                                            raw_dot(v, npcs[last]) * raw_dot(v, npcs[last]),
                                            dist_sq(v, npcs[last]),
                                        );
                                    }
                                }
                            },
                            None => {
                                if k < last {
                                    assert(!qualifies(v, npcs.drop_last()[k]));
                                }
                            },
                        }
                    }
                }
            },
            None => {},
        }
    }
}

proof fn lemma_abs_sqrt(a: int, s: int, b: int)
    requires
        a * a <= s,
        0 <= s,
        0 <= b,
        s <= b * b,
    ensures
        -b <= a <= b,
{
    if a > b {
        assert(a * a > b * b) by (nonlinear_arith)
            requires
                a > b >= 0,
        ;
    }
    if a < -b {
        assert(a * a > b * b) by (nonlinear_arith)
            requires
                a < -b <= 0,
        ;
    }
}

/// The proxy `id` the viewer is looking at, if any: the qualifying
/// candidate with the largest cosine to the view direction, the earliest
/// stored on ties; `None` when no candidate is within range and cone.
#[verifier::rlimit(100)]
#[verifier::spinoff_prover]
#[verifier::loop_isolation(false)]
pub fn find_npc_in_crosshair(v: &Viewpoint, npcs: &Vec<Npc>) -> (r: Option<u32>)
    requires
        v.wf(),
        forall|k: int| 0 <= k < npcs@.len() ==> (#[trigger] npcs@[k]).location.wf(),
    ensures
        r == (match pick(*v, npcs@) {
            Some(i) => Some(npcs@[i].id),
            None => None::<u32>,
        }),
{
    let lx = v.lx as i128;
    let ly = v.ly as i128;
    let lz = v.lz as i128;
    proof {
        assert(lx * lx <= 16000000 && ly * ly <= 16000000 && lz * lz <= 16000000 && lx * lx >= 0
            && ly * ly >= 0 && lz * lz >= 0) by (nonlinear_arith)
            requires
                -4000 <= lx <= 4000,
                -4000 <= ly <= 4000,
                -4000 <= lz <= 4000,
        ;
    }
    let nls: i128 = lx * lx + ly * ly + lz * lz;
    proof {
        assert(nls == norm_l_sq(*v));
    }
    let mut best: Option<(usize, i128, i128)> = None;
    let mut i: usize = 0;
    while i < npcs.len()
        invariant
            i <= npcs@.len(),
            match best {
                Some(b) => {
                    &&& pick(*v, npcs@.take(i as int)) == Some(b.0 as int)
                    &&& b.0 < i
                    &&& b.1 as int == raw_dot(*v, npcs@[b.0 as int])
                    &&& b.2 as int == dist_sq(*v, npcs@[b.0 as int])
                    &&& qualifies(*v, npcs@[b.0 as int])
                    &&& 0 < b.1 <= 384000000
                    &&& 10_000 <= b.2 <= 1_024_000_000
                },
                None => pick(*v, npcs@.take(i as int)) is None,
            },
        decreases npcs@.len() - i,
    {
        let ghost prefix = npcs@.take(i as int);
        let ghost next_prefix = npcs@.take(i as int + 1);
        proof {
            assert(next_prefix.drop_last() =~= prefix);
            assert(next_prefix.last() == npcs@[i as int]);
        }
        let n = &npcs[i];
        let dx = (n.location.x - v.x) as i128;
        let dy = (n.location.y + 900 - v.y) as i128;
        let dz = (n.location.z - v.z) as i128;
        proof {
            assert(dx * dx <= 0x10000000000000000000000 && dy * dy <= 0x10000000000000000000000
                && dz * dz <= 0x10000000000000000000000 && dx * dx >= 0 && dy * dy >= 0 && dz * dz
                >= 0) by (nonlinear_arith)
                requires
                    -137438954372 <= dx <= 137438954372,
                    -137438954372 <= dy <= 137438954372,
                    -137438954372 <= dz <= 137438954372,
            ;
        }
        let d2: i128 = dx * dx + dy * dy + dz * dz;
        proof {
            assert(d2 == dist_sq(*v, npcs@[i as int]));
        }
        if d2 < 10_000 || d2 > 1_024_000_000 {
            proof {
                assert(!qualifies(*v, npcs@[i as int]));
            }
            i = i + 1;
            continue ;
        }
        proof {
            lemma_abs_sqrt(dx as int, d2 as int, 32000);
            lemma_abs_sqrt(dy as int, d2 as int, 32000);
            lemma_abs_sqrt(dz as int, d2 as int, 32000);
            assert(lx * dx <= 128000000 && lx * dx >= -128000000 && ly * dy <= 128000000 && ly * dy
                >= -128000000 && lz * dz <= 128000000 && lz * dz >= -128000000)
                by (nonlinear_arith)
                requires
                    -4000 <= lx <= 4000,
                    -4000 <= ly <= 4000,
                    -4000 <= lz <= 4000,
                    -32000 <= dx <= 32000,
                    -32000 <= dy <= 32000,
                    -32000 <= dz <= 32000,
            ;
        }
        let raw: i128 = lx * dx + ly * dy + lz * dz;
        proof {
            assert(raw == raw_dot(*v, npcs@[i as int]));
            assert(-384000000 <= raw <= 384000000);
        }
        if raw <= 0 {
            proof {
                assert(!qualifies(*v, npcs@[i as int]));
            }
            i = i + 1;
            continue ;
        }
        proof {
            assert(raw * raw <= 147456000000000000 && raw * raw >= 0) by (nonlinear_arith)
                requires
                    0 <= raw <= 384000000,
            ;
            assert(nls * d2 <= 49152000000000000 && nls * d2 >= 0) by (nonlinear_arith)
                requires
                    0 <= nls <= 48000000,
                    0 <= d2 <= 1_024_000_000,
            ;
            assert(100 * (raw * raw) == 100 * raw * raw) by (nonlinear_arith);
            assert(81 * (norm_l_sq(*v) * dist_sq(*v, npcs@[i as int])) == 81 * norm_l_sq(*v)
                * dist_sq(*v, npcs@[i as int])) by (nonlinear_arith);
        }
        let raw_sq: i128 = raw * raw;
        let cone_rhs: i128 = nls * d2;
        if 100 * raw_sq <= 81 * cone_rhs {
            proof {
                assert(!qualifies(*v, npcs@[i as int]));
            }
            i = i + 1;
            continue ;
        }
        proof {
            assert(qualifies(*v, npcs@[i as int]));
        }
        match best {
            None => {
                best = Some((i, raw, d2));
            },
            Some(b) => {
                proof {
                    assert(b.1 * b.1 >= 0 && b.1 * b.1 <= 147456000000000000)
                        by (nonlinear_arith)
                        requires
                            0 < b.1 <= 384000000,
                    ;
                    assert(raw_sq * b.2 >= 0 && raw_sq * b.2 <= 0x7FFF_FFFF_FFFF_FFFF_FFFF_FFFF
                        && (b.1 * b.1) * d2 >= 0 && (b.1 * b.1) * d2
                        <= 0x7FFF_FFFF_FFFF_FFFF_FFFF_FFFF) by (nonlinear_arith)
                        requires
                            0 <= raw_sq <= 147456000000000000,
                            0 <= b.1 * b.1 <= 147456000000000000,
                            0 <= d2 <= 1_024_000_000,
                            0 <= b.2 <= 1_024_000_000,
                    ;
                    assert(raw_sq * b.2 == raw_dot(*v, npcs@[i as int]) * raw_dot(
                        *v,
                        npcs@[i as int],
                    ) * dist_sq(*v, npcs@[b.0 as int])) by (nonlinear_arith)
                        requires
                            raw_sq == raw * raw,
                            raw as int == raw_dot(*v, npcs@[i as int]),
                            b.2 as int == dist_sq(*v, npcs@[b.0 as int]),
                    ;
                    assert((b.1 * b.1) * d2 == raw_dot(*v, npcs@[b.0 as int]) * raw_dot(
                        *v,
                        npcs@[b.0 as int],
                    ) * dist_sq(*v, npcs@[i as int])) by (nonlinear_arith)
                        requires
                            b.1 as int == raw_dot(*v, npcs@[b.0 as int]),
                            d2 as int == dist_sq(*v, npcs@[i as int]),
                    ;
                }
                let b1_sq: i128 = b.1 * b.1;
                if raw_sq * b.2 > b1_sq * d2 {
                    best = Some((i, raw, d2));
                }
            },
        }
        i = i + 1;
    }
    proof {
        assert(npcs@.take(npcs@.len() as int) =~= npcs@);
    }
    match best {
        Some(b) => Some(npcs[b.0].id),
        None => None,
    }
}

} // verus!
