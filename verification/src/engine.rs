//! The round engine: killing and moving agents, destroying colonies,
//! the two-phase round, termination, and the survivor list.
//!
//! Every mutation is specified exactly as a transformation of the ghost
//! state, so that the round's `ensures` can both pin the arithmetic of
//! each step and carry the occupancy invariant across a whole run.

use crate::render::{
    destruction_line, destruction_message, dir_label, lemma_lex_total, lemma_lex_trans, lex_le,
    lex_le_bytes, push_bytes, push_dir_label,
};
use crate::rng::{spec_next_range, DRAW_LIMIT};
use crate::simulation::Simulation;
use crate::state::{
    dirs_of_mask, lemma_mask_bits, lemma_occ_except, lemma_occ_member, link, links_to_valid, occ,
    occ_below, presence, spec_mask, tallied, wf, SimView,
};
use crate::types::{AntId, ColonyId, Direction};
use vstd::multiset::Multiset;
use vstd::pervasive::VecAdditionalExecFns;
use vstd::prelude::*;

verus! {

/// An occupant count after one agent leaves; an empty colony stays empty.
pub open spec fn dec_count(cnt: u32) -> u32 {
    if cnt > 0 {
        (cnt - 1) as u32
    } else {
        0
    }
}

/// An occupant count after one agent arrives; the counter saturates at
/// the top of its range, which a truthful ledger never reaches.
pub open spec fn inc_count(cnt: u32) -> u32 {
    if cnt < 0xFFFF_FFFF {
        (cnt + 1) as u32
    } else {
        cnt
    }
}

/// The state after evicting agent `ant` from colony `c`: the count drops
/// and the witness is cleared if it named the evicted agent.
pub open spec fn after_removal(v: SimView, ant: u16, c: int) -> SimView {
    SimView {
        count: v.count.update(c, dec_count(v.count[c])),
        witness: if v.witness[c] == Some(ant) {
            v.witness.update(c, None::<u16>)
        } else {
            v.witness
        },
        ..v
    }
}

/// The state after killing agent `ant`: dead, and evicted from the colony
/// it stood on; out-of-range identifiers are a silent no-op.
pub open spec fn after_kill(v: SimView, ant: u16) -> SimView {
    if (ant as int) < v.m() {
        after_removal(
            SimView { alive: v.alive.update(ant as int, false), ..v },
            ant,
            v.pos[ant as int] as int,
        )
    } else {
        v
    }
}

/// The mask column after recomputing the masks of the colonies that `c`
/// links to, in the fixed order north, south, east, west.
pub open spec fn masks_after_neighbor_updates(v: SimView, c: int) -> Seq<u8> {
    let m1 = if v.north[c] is Some {
        v.mask.update(v.north[c]->0 as int, spec_mask(v, v.north[c]->0 as int))
    } else {
        v.mask
    };
    let m2 = if v.south[c] is Some {
        m1.update(v.south[c]->0 as int, spec_mask(v, v.south[c]->0 as int))
    } else {
        m1
    };
    let m3 = if v.east[c] is Some {
        m2.update(v.east[c]->0 as int, spec_mask(v, v.east[c]->0 as int))
    } else {
        m2
    };
    if v.west[c] is Some {
        m3.update(v.west[c]->0 as int, spec_mask(v, v.west[c]->0 as int))
    } else {
        m3
    }
}

/// The state after tombstoning colony `col`: invalid, empty, maskless,
/// and every colony it links to has its mask recomputed; out-of-range
/// identifiers are a silent no-op.
pub open spec fn after_destroy(v: SimView, col: u16) -> SimView {
    if (col as int) < v.n {
        let v1 = SimView {
            valid: v.valid.update(col as int, false),
            count: v.count.update(col as int, 0u32),
            witness: v.witness.update(col as int, None::<u16>),
            mask: v.mask.update(col as int, 0u8),
            ..v
        };
        SimView { mask: masks_after_neighbor_updates(v1, col as int), ..v1 }
    } else {
        v
    }
}

/// The state and emitted message of committing agent `ant`'s move into
/// colony `t`. A destroyed target kills the mover, evicting it from its
/// colony once. Otherwise the mover leaves its colony's ledger first; an
/// occupied target collides — the mover dies where it stands (already
/// evicted), the target's witness is killed and evicted, and the target
/// is destroyed — and an empty target receives the mover.
pub open spec fn spec_move(v: SimView, ant: u16, t: u16) -> (SimView, Option<Seq<u8>>) {
    let c = v.pos[ant as int] as int;
    if !v.valid[t as int] {
        (after_kill(v, ant), None)
    } else {
        let v1 = after_removal(v, ant, c);
        if v1.count[t as int] > 0 {
            let other = v1.witness[t as int];
            let msg = destruction_line(
                v.names[t as int],
                ant,
                if other is Some {
                    other->0
                } else {
                    0
                },
            );
            let v2 = SimView { alive: v1.alive.update(ant as int, false), ..v1 };
            let v3 = if other is Some {
                after_kill(v2, other->0)
            } else {
                v2
            };
            (after_destroy(v3, t), Some(msg))
        } else {
            let v2 = SimView {
                pos: v1.pos.update(ant as int, t),
                moves: v1.moves.update(ant as int, (v1.moves[ant as int] + 1) as u16),
                count: v1.count.update(t as int, inc_count(v1.count[t as int])),
                witness: v1.witness.update(t as int, Some(ant)),
                ..v1
            };
            (v2, None)
        }
    }
}

/// The hard ceiling on rounds: a non-fatal safety net that ends a run
/// early; correct termination logic stops well before it.
pub const MAX_ITERATIONS: u32 = 1000000;

/// Whether no agent is alive.
pub open spec fn all_dead(v: SimView) -> bool {
    forall|a: int| 0 <= a < v.m() ==> !v.alive[a]
}

/// Whether every alive agent has exhausted its move budget.
pub open spec fn all_maxed(v: SimView) -> bool {
    forall|a: int| 0 <= a < v.m() && v.alive[a] ==> v.moves[a] >= v.max_moves
}

/// The state and intended move of the compute phase for one agent:
/// nowhere when its colony is destroyed or trapped, else through a
/// uniformly drawn valid direction, re-checked against the target's
/// tombstone; only the random source may advance.
pub open spec fn spec_calc(v: SimView, a: int) -> (SimView, Option<u16>) {
    let cur = v.pos[a] as int;
    if !v.valid[cur] || v.mask[cur] == 0 {
        (v, None)
    } else {
        let dirs = dirs_of_mask(v.mask[cur]);
        let pick = spec_next_range(v.rng, dirs.len() as u32, DRAW_LIMIT as nat);
        let d = dirs[pick.1 as int];
        let nb = link(v, cur, d);
        (
            SimView { rng: pick.0, ..v },
            if nb is Some && v.valid[nb->0 as int] {
                nb
            } else {
                None
            },
        )
    }
}

/// The compute phase over the first `i` agents: the state (with trapped
/// and doomed agents charged a turn), the queued moves, and the turns
/// consumed so far.
pub open spec fn spec_phase_one(v: SimView, i: nat) -> (SimView, Seq<(u16, u16)>, int)
    decreases i,
{
    if i == 0 {
        (v, Seq::empty(), 0)
    } else {
        let prev = spec_phase_one(v, (i - 1) as nat);
        let v1 = prev.0;
        let a = i - 1;
        if !v1.alive[a as int] || v1.moves[a as int] >= v1.max_moves {
            prev
        } else {
            let c = spec_calc(v1, a as int);
            match c.1 {
                Some(t) => (c.0, prev.1.push((a as u16, t)), prev.2),
                None => (
                    SimView {
                        moves: c.0.moves.update(a as int, (c.0.moves[a as int] + 1) as u16),
                        ..c.0
                    },
                    prev.1,
                    prev.2 + 1,
                ),
            }
        }
    }
}

/// The commit phase over the first `j` queued moves: the state, the
/// destruction messages emitted, and the turns consumed.
pub open spec fn spec_phase_two(v: SimView, pending: Seq<(u16, u16)>, j: nat) -> (
    SimView,
    Seq<Seq<u8>>,
    int,
)
    decreases j,
{
    if j == 0 {
        (v, Seq::empty(), 0)
    } else {
        let prev = spec_phase_two(v, pending, (j - 1) as nat);
        let v1 = prev.0;
        let entry = pending[j - 1];
        if v1.alive[entry.0 as int] {
            let out = spec_move(v1, entry.0, entry.1);
            (
                out.0,
                if out.1 is Some {
                    prev.1.push(out.1->0)
                } else {
                    prev.1
                },
                prev.2 + 1,
            )
        } else {
            prev
        }
    }
}

/// One whole round: the state after both phases, the messages emitted,
/// and the agent turns consumed.
pub open spec fn spec_step(v: SimView) -> (SimView, Seq<Seq<u8>>, int) {
    let p1 = spec_phase_one(v, v.m() as nat);
    let p2 = spec_phase_two(p1.0, p1.1, p1.1.len());
    (p2.0, p2.1, p1.2 + p2.2)
}

/// The rest of a run from a state reached after `iteration` completed
/// rounds: the final state, the messages emitted from here on, the
/// final round count, and the turns consumed from here on.
pub open spec fn spec_run_from(v: SimView, iteration: nat, fuel: nat) -> (
    SimView,
    Seq<Seq<u8>>,
    nat,
    int,
)
    decreases fuel,
{
    let st = spec_step(v);
    let it = iteration + 1;
    let done = all_dead(st.0) || all_maxed(st.0) || it > MAX_ITERATIONS;
    if done || fuel <= 1 {
        (st.0, st.1, it, st.2)
    } else {
        let rest = spec_run_from(st.0, it, (fuel - 1) as nat);
        (rest.0, st.1 + rest.1, rest.2, st.2 + rest.3)
    }
}

/// Determinism of a whole run: two results that each satisfy
/// `run_simulation`'s contract for the same starting state are equal —
/// the same final state, byte-identical destruction lists, the same
/// round and turn counts, and byte-identical survivor lists, since the
/// run is a function of the starting state and sorting is canonical.
pub proof fn lemma_run_deterministic(
    pre: SimView,
    end1: SimView,
    end2: SimView,
    dest1: Seq<Seq<u8>>,
    dest2: Seq<Seq<u8>>,
    iter1: nat,
    iter2: nat,
    total1: int,
    total2: int,
    surv1: Seq<Seq<u8>>,
    surv2: Seq<Seq<u8>>,
)
    requires
        (end1, dest1, iter1, total1) == spec_run_from(pre, 0, (MAX_ITERATIONS + 1) as nat),
        (end2, dest2, iter2, total2) == spec_run_from(pre, 0, (MAX_ITERATIONS + 1) as nat),
        sorted_lex(surv1),
        surv1.to_multiset() == survivor_lines(end1, end1.n).to_multiset(),
        sorted_lex(surv2),
        surv2.to_multiset() == survivor_lines(end2, end2.n).to_multiset(),
    ensures
        end1 == end2,
        dest1 == dest2,
        iter1 == iter2,
        total1 == total2,
        surv1 == surv2,
{
    lemma_sorted_unique(surv1, surv2);
}

/// In a state whose one living agent stands trapped — on a valid colony
/// with no valid outgoing direction — the compute phase over the first
/// `i` agents charges that agent one turn once reached, and queues
/// nothing.
proof fn lemma_phase_one_trapped(v: SimView, a: int, i: nat)
    requires
        wf(v),
        0 <= a < v.m(),
        v.alive[a],
        forall|b: int| 0 <= b < v.m() && b != a ==> !v.alive[b],
        v.valid[v.pos[a] as int],
        v.mask[v.pos[a] as int] == 0,
        v.moves[a] < v.max_moves,
        i <= v.m(),
    ensures
        spec_phase_one(v, i) == (if i <= a {
            (v, Seq::<(u16, u16)>::empty(), 0int)
        } else {
            (
                SimView { moves: v.moves.update(a, (v.moves[a] + 1) as u16), ..v },
                Seq::<(u16, u16)>::empty(),
                1int,
            )
        }),
    decreases i,
{
    if i > 0 {
        lemma_phase_one_trapped(v, a, (i - 1) as nat);
        if i - 1 == a {
            assert(spec_calc(v, a) == (v, None::<u16>));
        }
    }
}

/// One whole round of such a state: the trapped agent is charged one
/// turn where it stands; nothing is queued, emitted or destroyed.
proof fn lemma_step_trapped(v: SimView, a: int)
    requires
        wf(v),
        0 <= a < v.m(),
        v.alive[a],
        forall|b: int| 0 <= b < v.m() && b != a ==> !v.alive[b],
        v.valid[v.pos[a] as int],
        v.mask[v.pos[a] as int] == 0,
        v.moves[a] < v.max_moves,
    ensures
        spec_step(v) == (
            SimView { moves: v.moves.update(a, (v.moves[a] + 1) as u16), ..v },
            Seq::<Seq<u8>>::empty(),
            1int,
        ),
{
    lemma_phase_one_trapped(v, a, v.m() as nat);
    let p1 = spec_phase_one(v, v.m() as nat);
    assert(p1.1.len() == 0);
    assert(spec_phase_two(p1.0, p1.1, 0) == (p1.0, Seq::<Seq<u8>>::empty(), 0int));
}

/// The rest of the run of such a state: one turn a round until the
/// budget is spent, then termination — no destruction, no movement.
proof fn lemma_trapped_run(v: SimView, a: int, iteration: nat, fuel: nat)
    requires
        wf(v),
        0 <= a < v.m(),
        v.alive[a],
        forall|b: int| 0 <= b < v.m() && b != a ==> !v.alive[b],
        v.valid[v.pos[a] as int],
        v.mask[v.pos[a] as int] == 0,
        v.moves[a] < v.max_moves,
        iteration + (v.max_moves - v.moves[a]) <= MAX_ITERATIONS,
        fuel >= v.max_moves - v.moves[a],
    ensures
        spec_run_from(v, iteration, fuel) == (
            SimView { moves: v.moves.update(a, v.max_moves), ..v },
            Seq::<Seq<u8>>::empty(),
            (iteration + (v.max_moves - v.moves[a])) as nat,
            v.max_moves - v.moves[a],
        ),
    decreases v.max_moves - v.moves[a],
{
    lemma_step_trapped(v, a);
    let v2 = SimView { moves: v.moves.update(a, (v.moves[a] + 1) as u16), ..v };
    let st = spec_step(v);
    assert(st == (v2, Seq::<Seq<u8>>::empty(), 1int));
    if v.moves[a] + 1 == v.max_moves {
        assert(all_maxed(v2));
        assert(spec_run_from(v, iteration, fuel) == (st.0, st.1, iteration + 1, st.2));
        assert(v2.moves =~= v.moves.update(a, v.max_moves));
        assert(v2 =~~= (SimView { moves: v.moves.update(a, v.max_moves), ..v }));
    } else {
        assert(!all_maxed(v2)) by {
            assert(v2.alive[a] && v2.moves[a] < v2.max_moves);
        }
        assert(!all_dead(v2)) by {
            assert(v2.alive[a]);
        }
        lemma_trapped_run(v2, a, iteration + 1, (fuel - 1) as nat);
        let rest = spec_run_from(v2, iteration + 1, (fuel - 1) as nat);
        assert(spec_run_from(v, iteration, fuel) == (rest.0, st.1 + rest.1, rest.2, st.2
            + rest.3));
        assert(st.1 + rest.1 =~= Seq::<Seq<u8>>::empty());
        assert(v2.moves.update(a, v2.max_moves) =~= v.moves.update(a, v.max_moves));
        assert(rest.0 =~~= (SimView { moves: v.moves.update(a, v.max_moves), ..v }));
    }
}

/// A trapped agent spends its whole budget in place: in a run whose one
/// living agent stands on a valid colony with no valid outgoing
/// direction and an untouched counter, every round charges it one turn
/// where it stands, no destruction is ever emitted, and the run ends
/// after exactly `max_moves` rounds with the agent alive, in place,
/// its counter at the budget.
pub proof fn lemma_trapped_agent_spends_budget(v: SimView, a: int)
    requires
        wf(v),
        0 <= a < v.m(),
        v.alive[a],
        forall|b: int| 0 <= b < v.m() && b != a ==> !v.alive[b],
        v.valid[v.pos[a] as int],
        v.mask[v.pos[a] as int] == 0,
        v.moves[a] == 0,
        v.max_moves >= 1,
    ensures
        ({
            let out = spec_run_from(v, 0, (MAX_ITERATIONS + 1) as nat);
            &&& out.0 == (SimView { moves: v.moves.update(a, v.max_moves), ..v })
            &&& out.0.alive[a] && out.0.pos[a] == v.pos[a] && out.0.moves[a] == v.max_moves
            &&& out.1 == Seq::<Seq<u8>>::empty()
            &&& out.2 == v.max_moves as nat
            &&& out.3 == v.max_moves as int
        }),
{
    lemma_trapped_run(v, a, 0, (MAX_ITERATIONS + 1) as nat);
}

/// A derived valid-directions mask is always a four-bit value.
proof fn lemma_spec_mask_bound(v: SimView, c: int)
    ensures
        spec_mask(v, c) < 16,
{
    if v.valid[c] {
        lemma_mask_bits(
            if links_to_valid(v, c, Direction::North) { 1u8 } else { 0u8 },
            if links_to_valid(v, c, Direction::South) { 2u8 } else { 0u8 },
            if links_to_valid(v, c, Direction::East) { 4u8 } else { 0u8 },
            if links_to_valid(v, c, Direction::West) { 8u8 } else { 0u8 },
        );
    }
}

/// Committing a move keeps the state well formed.
proof fn lemma_move_wf(v: SimView, ant: u16, t: u16)
    requires
        wf(v),
        (ant as int) < v.m(),
        (t as int) < v.n,
    ensures
        wf(spec_move(v, ant, t).0),
{
    let res = spec_move(v, ant, t).0;
    assert forall|x: int| 0 <= x < res.n implies #[trigger] res.mask[x] < 16 by {
        if !v.valid[t as int] {
            assert(res.mask[x] == v.mask[x]);
        } else {
            let c = v.pos[ant as int] as int;
            let v1 = after_removal(v, ant, c);
            if v1.count[t as int] > 0 {
                let other = v1.witness[t as int];
                let v2 = SimView { alive: v1.alive.update(ant as int, false), ..v1 };
                let v3 = if other is Some {
                    after_kill(v2, other->0)
                } else {
                    v2
                };
                lemma_spec_mask_bound(
                    SimView {
                        valid: v3.valid.update(t as int, false),
                        count: v3.count.update(t as int, 0u32),
                        witness: v3.witness.update(t as int, None::<u16>),
                        mask: v3.mask.update(t as int, 0u8),
                        ..v3
                    },
                    x,
                );
            } else {
                assert(res.mask[x] == v.mask[x]);
            }
        }
    }
}

/// The compute phase only advances the random source, charges trapped
/// and doomed agents one turn while under budget, and queues in-range
/// moves for agents whose counters it left untouched, in ascending
/// agent order.
proof fn lemma_phase_one_frame(v: SimView, i: nat)
    requires
        wf(v),
        i <= v.m(),
    ensures
        ({
            let p = spec_phase_one(v, i);
            &&& p.0.alive == v.alive
            &&& p.0.pos == v.pos
            &&& p.0.valid == v.valid
            &&& p.0.count == v.count
            &&& p.0.witness == v.witness
            &&& p.0.mask == v.mask
            &&& p.0.names == v.names
            &&& p.0.north == v.north
            &&& p.0.south == v.south
            &&& p.0.east == v.east
            &&& p.0.west == v.west
            &&& p.0.n == v.n
            &&& p.0.max_moves == v.max_moves
            &&& p.0.cfg_ants == v.cfg_ants
            &&& p.0.cfg_map == v.cfg_map
            &&& p.0.cfg_seed == v.cfg_seed
            &&& p.0.moves.len() == v.moves.len()
            &&& forall|x: int|
                0 <= x < v.m() ==> v.moves[x] <= #[trigger] p.0.moves[x] <= v.moves[x] + 1
            &&& forall|x: int|
                0 <= x < v.m() && #[trigger] p.0.moves[x] > v.moves[x] ==> v.moves[x]
                    < v.max_moves
            &&& forall|x: int| i <= x < v.m() ==> #[trigger] p.0.moves[x] == v.moves[x]
            &&& forall|k: int|
                0 <= k < p.1.len() ==> 0 <= ((#[trigger] p.1[k]).0 as int) < i && (p.1[k].1 as int)
                    < v.n
            &&& forall|k: int|
                0 <= k < p.1.len() ==> #[trigger] p.0.moves[p.1[k].0 as int] == v.moves[p.1[k].0
                    as int] && v.moves[p.1[k].0 as int] < v.max_moves
            &&& forall|k1: int, k2: int|
                0 <= k1 < k2 < p.1.len() ==> (#[trigger] p.1[k1]).0 < (#[trigger] p.1[k2]).0
        }),
    decreases i,
{
    if i > 0 {
        lemma_phase_one_frame(v, (i - 1) as nat);
        let prev = spec_phase_one(v, (i - 1) as nat);
        let a = i - 1;
        if prev.0.alive[a as int] && prev.0.moves[a as int] < prev.0.max_moves {
            let cres = spec_calc(prev.0, a as int);
            let cur = prev.0.pos[a as int] as int;
            assert(0 <= cur < v.n);
            assert(cres.1 is Some ==> (cres.1->0 as int) < v.n) by {
                if cres.1 is Some {
                    assert(prev.0.north[cur] == v.north[cur] && prev.0.south[cur] == v.south[cur]
                        && prev.0.east[cur] == v.east[cur] && prev.0.west[cur] == v.west[cur]);
                }
            }
        }
    }
}

/// The commit phase keeps the state well formed, never revives an agent
/// or a colony, never touches the topology, the names, the
/// configuration or the random source, and charges a queued agent its
/// turn only while under budget.
proof fn lemma_phase_two_frame(v: SimView, pending: Seq<(u16, u16)>, j: nat)
    requires
        wf(v),
        j <= pending.len(),
        forall|k: int|
            0 <= k < pending.len() ==> ((#[trigger] pending[k]).0 as int) < v.m() && (pending[k].1
                as int) < v.n,
        forall|k: int|
            0 <= k < pending.len() ==> v.moves[(#[trigger] pending[k]).0 as int] < v.max_moves,
        forall|k1: int, k2: int|
            0 <= k1 < k2 < pending.len() ==> (#[trigger] pending[k1]).0 < (
            #[trigger] pending[k2]).0,
    ensures
        ({
            let q = spec_phase_two(v, pending, j);
            &&& wf(q.0)
            &&& q.0.m() == v.m()
            &&& q.0.n == v.n
            &&& q.0.names == v.names
            &&& q.0.north == v.north
            &&& q.0.south == v.south
            &&& q.0.east == v.east
            &&& q.0.west == v.west
            &&& q.0.max_moves == v.max_moves
            &&& q.0.cfg_ants == v.cfg_ants
            &&& q.0.cfg_map == v.cfg_map
            &&& q.0.cfg_seed == v.cfg_seed
            &&& q.0.rng == v.rng
            &&& forall|x: int| 0 <= x < v.m() ==> (#[trigger] q.0.alive[x] ==> v.alive[x])
            &&& forall|x: int|
                0 <= x < v.m() ==> v.moves[x] <= #[trigger] q.0.moves[x] <= v.moves[x] + 1
            &&& forall|x: int|
                0 <= x < v.m() && #[trigger] q.0.moves[x] > v.moves[x] ==> v.moves[x]
                    < v.max_moves
            &&& forall|k: int|
                j <= k < pending.len() ==> #[trigger] q.0.moves[pending[k].0 as int] == v.moves[
                    pending[k].0 as int
                ]
            &&& forall|c: int| 0 <= c < v.n ==> (!v.valid[c] ==> !(#[trigger] q.0.valid[c]))
        }),
    decreases j,
{
    if j > 0 {
        lemma_phase_two_frame(v, pending, (j - 1) as nat);
        let prev = spec_phase_two(v, pending, (j - 1) as nat);
        let entry = pending[j - 1];
        if prev.0.alive[entry.0 as int] {
            assert(prev.0.moves[entry.0 as int] == v.moves[entry.0 as int]);
            lemma_move_frame(prev.0, entry.0, entry.1);
            lemma_move_wf(prev.0, entry.0, entry.1);
            let moved = spec_move(prev.0, entry.0, entry.1).0;
            assert forall|k: int|
                j <= k < pending.len() implies #[trigger] moved.moves[pending[k].0 as int]
                == v.moves[pending[k].0 as int] by {
                assert(pending[j - 1].0 < pending[k].0);
            }
        }
    }
}

/// A whole round keeps the state well formed, the topology, names and
/// configuration fixed, never revives an agent or a colony, and charges
/// each agent a turn only while under its budget.
proof fn lemma_step_frame(v: SimView)
    requires
        wf(v),
    ensures
        ({
            let s = spec_step(v);
            &&& wf(s.0)
            &&& s.0.m() == v.m()
            &&& s.0.n == v.n
            &&& s.0.names == v.names
            &&& s.0.north == v.north
            &&& s.0.south == v.south
            &&& s.0.east == v.east
            &&& s.0.west == v.west
            &&& s.0.max_moves == v.max_moves
            &&& s.0.cfg_ants == v.cfg_ants
            &&& s.0.cfg_map == v.cfg_map
            &&& s.0.cfg_seed == v.cfg_seed
            &&& forall|x: int| 0 <= x < v.m() ==> (#[trigger] s.0.alive[x] ==> v.alive[x])
            &&& forall|x: int|
                0 <= x < v.m() && v.moves[x] <= v.max_moves ==> #[trigger] s.0.moves[x]
                    <= v.max_moves
            &&& forall|c: int| 0 <= c < v.n ==> (!v.valid[c] ==> !(#[trigger] s.0.valid[c]))
        }),
{
    lemma_phase_one_frame(v, v.m() as nat);
    let p1 = spec_phase_one(v, v.m() as nat);
    assert(wf(p1.0));
    lemma_phase_two_frame(p1.0, p1.1, p1.1.len());
}

/// Conservation over the rest of a run, by induction over the rounds.
proof fn lemma_run_frame(v: SimView, iteration: nat, fuel: nat)
    requires
        wf(v),
    ensures
        ({
            let out = spec_run_from(v, iteration, fuel);
            &&& wf(out.0)
            &&& out.0.m() == v.m()
            &&& out.0.n == v.n
            &&& out.0.names == v.names
            &&& out.0.max_moves == v.max_moves
            &&& forall|x: int| 0 <= x < v.m() ==> (#[trigger] out.0.alive[x] ==> v.alive[x])
            &&& forall|x: int|
                0 <= x < v.m() && v.moves[x] <= v.max_moves ==> #[trigger] out.0.moves[x]
                    <= v.max_moves
            &&& forall|c: int| 0 <= c < v.n ==> (!v.valid[c] ==> !(#[trigger] out.0.valid[c]))
        }),
    decreases fuel,
{
    lemma_step_frame(v);
    let st = spec_step(v);
    let it = iteration + 1;
    let done = all_dead(st.0) || all_maxed(st.0) || it > MAX_ITERATIONS;
    if !(done || fuel <= 1) {
        lemma_run_frame(st.0, it, (fuel - 1) as nat);
    }
}

/// Conservation law over a whole run: the agent roster and the colony
/// table never change size — identifiers are array indices and are
/// never reused or reassigned — dead agents stay dead, destroyed
/// colonies stay destroyed, and every agent that began within its move
/// budget ends either alive with `moves <= max_moves` or dead.
pub proof fn lemma_run_conserves_agents(v: SimView)
    requires
        wf(v),
    ensures
        ({
            let out = spec_run_from(v, 0, (MAX_ITERATIONS + 1) as nat).0;
            &&& out.m() == v.m()
            &&& out.n == v.n
            &&& forall|x: int| 0 <= x < v.m() ==> (#[trigger] out.alive[x] ==> v.alive[x])
            &&& forall|x: int|
                0 <= x < v.m() && v.moves[x] <= v.max_moves ==> #[trigger] out.moves[x]
                    <= v.max_moves
            &&& forall|c: int| 0 <= c < v.n ==> (!v.valid[c] ==> !(#[trigger] out.valid[c]))
        }),
{
    lemma_run_frame(v, 0, (MAX_ITERATIONS + 1) as nat);
}

/// The survivor-line fragment for direction `d` out of colony `c`: the
/// direction's label and the neighbor's name, present exactly when the
/// link exists and its target is still valid.
pub open spec fn link_fragment(v: SimView, c: int, d: Direction) -> Seq<u8> {
    if links_to_valid(v, c, d) {
        dir_label(d) + v.names[link(v, c, d)->0 as int]
    } else {
        Seq::empty()
    }
}

/// The survivor line of colony `c`: its name, then the fragments of the
/// four directions in the fixed order north, south, east, west.
pub open spec fn survivor_line(v: SimView, c: int) -> Seq<u8> {
    v.names[c] + link_fragment(v, c, Direction::North) + link_fragment(v, c, Direction::South)
        + link_fragment(v, c, Direction::East) + link_fragment(v, c, Direction::West)
}

/// The survivor lines of the first `k` colonies, in identifier order,
/// destroyed colonies skipped.
pub open spec fn survivor_lines(v: SimView, k: int) -> Seq<Seq<u8>>
    decreases k,
{
    if k <= 0 {
        Seq::empty()
    } else {
        survivor_lines(v, k - 1) + (if v.valid[k - 1] {
            seq![survivor_line(v, k - 1)]
        } else {
            Seq::empty()
        })
    }
}

/// Whether the byte strings come in lexicographic order.
pub open spec fn sorted_lex(s: Seq<Seq<u8>>) -> bool {
    forall|i: int, j: int| 0 <= i < j < s.len() ==> lex_le(s[i], s[j])
}

/// Sorting is canonical: two sorted line lists that hold the same lines
/// are identical, byte for byte. With the run itself a function of the
/// starting state, this pins the survivor list of identical runs.
pub proof fn lemma_sorted_unique(x: Seq<Seq<u8>>, y: Seq<Seq<u8>>)
    requires
        sorted_lex(x),
        sorted_lex(y),
        x.to_multiset() == y.to_multiset(),
    ensures
        x == y,
    decreases x.len(),
{
    broadcast use vstd::seq_lib::group_to_multiset_ensures;

    if x.len() == 0 {
        assert(y.to_multiset().len() == 0);
        assert(x =~= y);
    } else {
        assert(x.to_multiset().len() == x.len());
        assert(y.to_multiset().len() == y.len());
        assert(y.len() == x.len());
        assert(x.contains(x[0]));
        assert(x.to_multiset().count(x[0]) > 0);
        assert(y.to_multiset().count(x[0]) > 0);
        assert(y.contains(x[0]));
        let j = choose|j: int| 0 <= j < y.len() && y[j] == x[0];
        assert(lex_le(y[0], x[0])) by {
            if j != 0 {
                assert(lex_le(y[0], y[j]));
            } else {
                crate::render::lemma_lex_total(y[0], y[0]);
            }
        }
        assert(y.contains(y[0]));
        assert(y.to_multiset().count(y[0]) > 0);
        assert(x.to_multiset().count(y[0]) > 0);
        assert(x.contains(y[0]));
        let i = choose|i: int| 0 <= i < x.len() && x[i] == y[0];
        assert(lex_le(x[0], y[0])) by {
            if i != 0 {
                assert(lex_le(x[0], x[i]));
            } else {
                crate::render::lemma_lex_total(x[0], x[0]);
            }
        }
        crate::render::lemma_lex_antisym(x[0], y[0]);
        assert(x.remove(0) =~= x.drop_first());
        assert(y.remove(0) =~= y.drop_first());
        assert(x.drop_first().to_multiset() =~= x.to_multiset().remove(x[0]));
        assert(y.drop_first().to_multiset() =~= y.to_multiset().remove(y[0]));
        assert(x.drop_first().to_multiset() == y.drop_first().to_multiset());
        assert(sorted_lex(x.drop_first())) by {
            assert forall|p: int, q: int|
                0 <= p < q < x.drop_first().len() implies lex_le(
                x.drop_first()[p],
                x.drop_first()[q],
            ) by {
                assert(x.drop_first()[p] == x[p + 1] && x.drop_first()[q] == x[q + 1]);
            }
        }
        assert(sorted_lex(y.drop_first())) by {
            assert forall|p: int, q: int|
                0 <= p < q < y.drop_first().len() implies lex_le(
                y.drop_first()[p],
                y.drop_first()[q],
            ) by {
                assert(y.drop_first()[p] == y[p + 1] && y.drop_first()[q] == y[q + 1]);
            }
        }
        lemma_sorted_unique(x.drop_first(), y.drop_first());
        assert forall|p: int| 0 <= p < x.len() implies x[p] == y[p] by {
            if p > 0 {
                assert(x[p] == x.drop_first()[p - 1]);
                assert(y[p] == y.drop_first()[p - 1]);
            }
        }
        assert(x =~= y);
    }
}

/// Inserting anywhere adds exactly one occurrence to the multiset.
pub proof fn lemma_insert_to_multiset(s: Seq<Seq<u8>>, i: int, v: Seq<u8>)
    requires
        0 <= i <= s.len(),
    ensures
        s.insert(i, v).to_multiset() == s.to_multiset().insert(v),
{
    broadcast use vstd::seq_lib::group_to_multiset_ensures;

    let t = s.insert(i, v);
    assert(t[i] == v);
    assert(t.remove(i) =~= s);
    assert(t.remove(i).to_multiset() =~= t.to_multiset().remove(v));
    assert(t.contains(v));
    assert(t.to_multiset().count(v) > 0);
    assert(t.to_multiset() =~= s.to_multiset().insert(v));
}

/// Sorts the lines lexicographically by repeated insertion, preserving
/// them as a multiset.
fn sort_lines(input: Vec<Vec<u8>>) -> (r: Vec<Vec<u8>>)
    ensures
        sorted_lex(r.deep_view()),
        r.deep_view().to_multiset() == input.deep_view().to_multiset(),
{
    broadcast use vstd::seq_lib::group_to_multiset_ensures;

    let ghost orig = input.deep_view();
    let mut rest = input;
    let mut out: Vec<Vec<u8>> = Vec::new();
    while rest.len() > 0
        invariant
            sorted_lex(out.deep_view()),
            out.deep_view().to_multiset().add(rest.deep_view().to_multiset())
                =~= orig.to_multiset(),
        decreases rest.len(),
    {
        let ghost rest_pre = rest.deep_view();
        let x = match rest.pop() {
            Some(x) => x,
            None => {
                proof {
                    assert(false);
                }
                Vec::new()
            },
        };
        proof {
            rest_pre.to_multiset_ensures();
            assert(rest_pre[rest_pre.len() - 1] == x.deep_view());
            assert(rest.deep_view() =~~= rest_pre.drop_last());
            assert(rest_pre.drop_last() =~= rest_pre.remove(rest_pre.len() - 1));
            assert(rest_pre.remove(rest_pre.len() - 1).to_multiset() =~= rest_pre.to_multiset()
                .remove(x.deep_view()));
            assert(rest_pre.contains(x.deep_view()));
            assert(rest_pre.to_multiset().count(x.deep_view()) > 0);
        }
        let mut k: usize = 0;
        while k < out.len() && lex_le_bytes(&out[k], &x)
            invariant
                k <= out.len(),
                forall|q: int| 0 <= q < k ==> lex_le(#[trigger] out.deep_view()[q], x.deep_view()),
            decreases out.len() - k,
        {
            proof {
                assert(x.deep_view() =~= x@);
                assert(out.deep_view()[k as int] == out@[k as int].deep_view());
                assert(out@[k as int].deep_view() =~= out@[k as int]@);
            }
            k = k + 1;
        }
        proof {
            assert(x.deep_view() =~= x@);
        }
        let ghost out_pre = out.deep_view();
        let ghost kk = k as int;
        proof {
            if k < out.len() {
                assert(!lex_le(out_pre[kk], x.deep_view())) by {
                    assert(out.deep_view()[kk] == out@[kk]@);
                }
                lemma_lex_total(out_pre[kk], x.deep_view());
            }
        }
        out.insert(k, x);
        proof {
            assert(out.deep_view() =~~= out_pre.insert(kk, x.deep_view()));
            lemma_insert_to_multiset(out_pre, kk, x.deep_view());
            let nd = out_pre.insert(kk, x.deep_view());
            assert forall|i: int, j: int| 0 <= i < j < nd.len() implies lex_le(nd[i], nd[j]) by {
                if j < kk {
                    assert(nd[i] == out_pre[i] && nd[j] == out_pre[j]);
                } else if i > kk {
                    assert(nd[i] == out_pre[i - 1] && nd[j] == out_pre[j - 1]);
                } else if i < kk && j == kk {
                    assert(nd[i] == out_pre[i] && nd[j] == x.deep_view());
                } else if i == kk {
                    assert(nd[i] == x.deep_view() && nd[j] == out_pre[j - 1]);
                    assert(kk <= j - 1 < out_pre.len());
                    assert(lex_le(x.deep_view(), out_pre[kk]));
                    if j - 1 > kk {
                        assert(lex_le(out_pre[kk], out_pre[j - 1]));
                        lemma_lex_trans(x.deep_view(), out_pre[kk], out_pre[j - 1]);
                    }
                } else {
                    assert(i < kk && j > kk);
                    assert(nd[i] == out_pre[i] && nd[j] == out_pre[j - 1]);
                    assert(lex_le(out_pre[i], x.deep_view()));
                    assert(kk <= j - 1 < out_pre.len());
                    assert(lex_le(x.deep_view(), out_pre[kk]));
                    if j - 1 == kk {
                        lemma_lex_trans(out_pre[i], x.deep_view(), out_pre[kk]);
                    } else {
                        assert(lex_le(out_pre[kk], out_pre[j - 1]));
                        lemma_lex_trans(x.deep_view(), out_pre[kk], out_pre[j - 1]);
                        lemma_lex_trans(out_pre[i], x.deep_view(), out_pre[j - 1]);
                    }
                }
            }
            assert(sorted_lex(out.deep_view()));
        }
    }
    proof {
        assert(rest.deep_view().to_multiset() =~= Seq::<Seq<u8>>::empty().to_multiset());
        assert(Seq::<Seq<u8>>::empty().to_multiset() =~= Multiset::empty());
        assert(out.deep_view().to_multiset() =~= orig.to_multiset());
    }
    out
}

/// Whether `b` is a state of the same run as `a`: the topology, the
/// names, the agent roster and the configuration are untouched; only
/// tombstones, occupancy, agent state and the random source may differ.
pub open spec fn same_run(a: SimView, b: SimView) -> bool {
    &&& b.n == a.n
    &&& b.m() == a.m()
    &&& b.names == a.names
    &&& b.north == a.north
    &&& b.south == a.south
    &&& b.east == a.east
    &&& b.west == a.west
    &&& b.max_moves == a.max_moves
    &&& b.cfg_ants == a.cfg_ants
    &&& b.cfg_map == a.cfg_map
    &&& b.cfg_seed == a.cfg_seed
}

/// Committing a move never touches the topology, the names, the
/// configuration or the random source; it can only kill agents, charge
/// the mover one turn, and destroy the target.
pub proof fn lemma_move_frame(v: SimView, ant: u16, t: u16)
    requires
        wf(v),
        (ant as int) < v.m(),
        (t as int) < v.n,
        v.moves[ant as int] < v.max_moves,
    ensures
        ({
            let r = spec_move(v, ant, t).0;
            &&& r.m() == v.m()
            &&& r.n == v.n
            &&& r.names == v.names
            &&& r.north == v.north
            &&& r.south == v.south
            &&& r.east == v.east
            &&& r.west == v.west
            &&& r.max_moves == v.max_moves
            &&& r.cfg_ants == v.cfg_ants
            &&& r.cfg_map == v.cfg_map
            &&& r.cfg_seed == v.cfg_seed
            &&& r.rng == v.rng
            &&& forall|x: int| 0 <= x < v.m() ==> (r.alive[x] ==> v.alive[x])
            &&& forall|x: int| 0 <= x < v.m() && x != ant as int ==> r.moves[x] == v.moves[x]
            &&& (r.moves[ant as int] == v.moves[ant as int] || r.moves[ant as int] == v.moves[
                ant as int
            ] + 1)
            &&& forall|x: int| 0 <= x < v.n ==> (!v.valid[x] ==> !r.valid[x])
        }),
{
}

/// Committing a move preserves the occupancy invariant, whatever the
/// placement: the mover leaves its colony's ledger exactly once, a
/// collision removes the mover, the witness and the target colony from
/// the ledger, and a safe arrival moves one resident. No assumption is
/// made about agents sharing colonies.
#[verifier::rlimit(50)]
pub proof fn lemma_move_preserves_tallied(v: SimView, ant: u16, t: u16)
    requires
        tallied(v),
        (ant as int) < v.m(),
        v.alive[ant as int],
        (t as int) < v.n,
        wf(spec_move(v, ant, t).0),
    ensures
        tallied(spec_move(v, ant, t).0),
{
    let a = ant as int;
    let m = v.m();
    let c = v.pos[a] as int;
    let res = spec_move(v, ant, t).0;
    assert(0 <= c < v.n);
    if v.valid[c] {
        lemma_occ_member(v.alive, v.pos, c, m, a);
        assert(v.count[c] == occ(v, c));
        assert(v.count[c] >= 1);
    }
    let v1 = after_removal(v, ant, c);
    if !v.valid[t as int] {
        assert(res == after_kill(v, ant));
        assert(res.alive == v.alive.update(a, false));
        assert(res.pos == v.pos);
        assert(res.count == v.count.update(c, dec_count(v.count[c])));
        assert forall|x: int| 0 <= x < v.n && res.valid[x] implies res.count[x] == occ(res, x) by {
            lemma_occ_except(v.alive, v.pos, res.alive, res.pos, x, m, a);
            assert(res.m() == m);
            assert(occ_below(res.alive, res.pos, x, m) == occ_below(v.alive, v.pos, x, m)
                - presence(v.alive[a], v.pos[a], x) + presence(res.alive[a], res.pos[a], x));
            assert(res.alive[a] == false);
            if x == c {
                assert(v.valid[c]);
                assert(presence(v.alive[a], v.pos[a], c) == 1);
                assert(res.count[c] == v.count[c] - 1);
            } else {
                assert(presence(v.alive[a], v.pos[a], x) == 0);
                assert(v.count[x] == occ(v, x));
                assert(res.count[x] == v.count[x]);
            }
        }
        assert forall|x: int| 0 <= x < v.n && !res.valid[x] implies res.count[x] == 0
            && res.witness[x] is None && res.mask[x] == 0 by {
            if x == c {
                assert(v.count[c] == 0);
                assert(res.count[c] == 0);
            }
        }
        assert(tallied(res));
    } else {
        if v1.count[t as int] > 0 {
            let other = v1.witness[t as int];
            let v2 = SimView { alive: v1.alive.update(a, false), ..v1 };
            let v3 = if other is Some {
                after_kill(v2, other->0)
            } else {
                v2
            };
            assert(res == after_destroy(v3, t));
            assert(res.pos == v.pos);
            assert(res.valid == v.valid.update(t as int, false));
            if other is Some {
                let oi = other->0 as int;
                assert(v.witness[t as int] == Some(other->0));
                assert(v.alive[oi] && v.pos[oi] == t);
                assert(oi != a);
                assert(res.alive == v.alive.update(a, false).update(oi, false));
                assert(res.count == v.count.update(c, dec_count(v.count[c])).update(
                    t as int,
                    dec_count(v2.count[t as int]),
                ).update(t as int, 0u32));
            } else {
                assert(res.alive == v.alive.update(a, false));
                assert(res.count == v.count.update(c, dec_count(v.count[c])).update(
                    t as int,
                    0u32,
                ));
            }
            assert(res.count[t as int] == 0 && res.witness[t as int] is None && res.mask[t as int]
                == 0);
            assert forall|x: int| 0 <= x < v.n && res.valid[x] implies res.count[x] == occ(
                res,
                x,
            ) by {
                assert(x != t);
                assert(res.m() == m);
                let alive1 = v.alive.update(a, false);
                lemma_occ_except(v.alive, v.pos, alive1, v.pos, x, m, a);
                assert(occ_below(alive1, v.pos, x, m) == occ_below(v.alive, v.pos, x, m)
                    - presence(v.alive[a], v.pos[a], x) + presence(alive1[a], v.pos[a], x));
                if other is Some {
                    let oi = other->0 as int;
                    lemma_occ_except(alive1, v.pos, res.alive, res.pos, x, m, oi);
                    assert(occ_below(res.alive, res.pos, x, m) == occ_below(alive1, v.pos, x, m)
                        - presence(alive1[oi], v.pos[oi], x) + presence(
                        res.alive[oi],
                        v.pos[oi],
                        x,
                    ));
                    assert(alive1[oi] == v.alive[oi]);
                    assert(presence(v.alive[oi], v.pos[oi], x) == 0);
                } else {
                    assert(occ_below(res.alive, res.pos, x, m) == occ_below(alive1, v.pos, x, m));
                }
                if x == c {
                    assert(v.valid[c]);
                    assert(presence(v.alive[a], v.pos[a], c) == 1);
                    assert(res.count[c] == v.count[c] - 1);
                } else {
                    assert(presence(v.alive[a], v.pos[a], x) == 0);
                    assert(v.count[x] == occ(v, x));
                    assert(res.count[x] == v.count[x]);
                }
            }
            assert forall|x: int| 0 <= x < v.n && !res.valid[x] implies res.count[x] == 0
                && res.witness[x] is None && res.mask[x] == 0 by {
                if x != t {
                    assert(!v.valid[x]);
                    if x == c {
                        assert(v.count[c] == 0);
                    }
                    assert(res.count[x] == 0);
                    assert(res.witness[x] == v.witness[x]);
                    assert(spec_mask(v3, x) == 0);
                }
            }
            assert forall|x: int|
                0 <= x < v.n && res.witness[x] is Some implies res.alive[res.witness[x]->0 as int]
                && res.pos[res.witness[x]->0 as int] == x by {
                assert(x != t);
                let w = res.witness[x]->0 as int;
                assert(v.witness[x] == Some(res.witness[x]->0));
                assert(v.alive[w] && v.pos[w] == x);
                assert(w != a);
                if other is Some {
                    assert(w != other->0 as int);
                }
            }
            assert(tallied(res));
        } else {
            assert(res.pos == v.pos.update(a, t));
            assert(res.alive == v.alive);
            if t as int != c {
                assert(v.count[t as int] == 0);
                assert(occ(v, t as int) == 0);
                assert forall|b: int| 0 <= b < m implies !(v.alive[b] && v.pos[b] == t) by {
                    if v.alive[b] && v.pos[b] == t {
                        lemma_occ_member(v.alive, v.pos, t as int, m, b);
                    }
                }
            } else {
                assert(v.valid[c]);
                assert(v.count[c] == 1);
                assert(occ(v, c) == 1);
            }
            assert forall|x: int| 0 <= x < v.n && res.valid[x] implies res.count[x] == occ(
                res,
                x,
            ) by {
                lemma_occ_except(v.alive, v.pos, res.alive, res.pos, x, m, a);
                assert(res.m() == m);
                assert(occ_below(res.alive, res.pos, x, m) == occ_below(v.alive, v.pos, x, m)
                    - presence(v.alive[a], v.pos[a], x) + presence(res.alive[a], res.pos[a], x));
                assert(res.alive[a] == true && res.pos[a] == t);
                if x == t as int {
                    assert(presence(res.alive[a], res.pos[a], x) == 1);
                    if t as int == c {
                        assert(presence(v.alive[a], v.pos[a], x) == 1);
                        assert(res.count[x] == 1);
                    } else {
                        assert(presence(v.alive[a], v.pos[a], x) == 0);
                        assert(occ(v, t as int) == 0);
                        assert(res.count[x] == 1);
                    }
                } else if x == c {
                    assert(v.valid[c]);
                    assert(presence(v.alive[a], v.pos[a], c) == 1);
                    assert(presence(res.alive[a], res.pos[a], c) == 0);
                    assert(res.count[x] == v.count[c] - 1);
                } else {
                    assert(presence(v.alive[a], v.pos[a], x) == 0);
                    assert(presence(res.alive[a], res.pos[a], x) == 0);
                    assert(v.count[x] == occ(v, x));
                    assert(res.count[x] == v.count[x]);
                }
            }
            assert forall|x: int| 0 <= x < v.n && !res.valid[x] implies res.count[x] == 0
                && res.witness[x] is None && res.mask[x] == 0 by {
                assert(x != t);
                if x == c {
                    assert(v.count[c] == 0);
                    assert(res.count[x] == 0);
                }
            }
            assert forall|x: int|
                0 <= x < v.n && res.witness[x] is Some implies res.alive[res.witness[x]->0 as int]
                && res.pos[res.witness[x]->0 as int] == x by {
                if x == t as int {
                    assert(res.witness[x] == Some(ant));
                } else {
                    let w = res.witness[x]->0 as int;
                    assert(v.witness[x] == Some(res.witness[x]->0));
                    assert(v.alive[w] && v.pos[w] == x);
                    assert(w != a);
                }
            }
            assert(tallied(res));
        }
    }
}

impl Simulation {
    /// Evicts an agent from a colony's occupancy ledger: the count drops
    /// (never below zero) and the witness is cleared if it named this
    /// agent.
    pub fn remove_ant_from_colony(&mut self, ant_id: AntId, colony_id: ColonyId)
        requires
            wf(old(self)@),
            (colony_id as int) < old(self)@.n,
        ensures
            final(self)@ == after_removal(old(self)@, ant_id, colony_id as int),
            wf(final(self)@),
    {
        let idx = colony_id as usize;
        let cnt = self.colony_ant_count[idx];
        if cnt > 0 {
            self.colony_ant_count.set(idx, cnt - 1);
        }
        let clear = match self.colony_first_ant[idx] {
            Some(w) => w == ant_id,
            None => false,
        };
        if clear {
            self.colony_first_ant.set(idx, None);
        }
        proof {
            assert(self@.count =~= after_removal(old(self)@, ant_id, colony_id as int).count);
            assert(final(self)@ =~~= after_removal(old(self)@, ant_id, colony_id as int));
        }
    }

    /// Marks an agent dead and evicts it from the colony it stands on;
    /// out-of-range identifiers are a silent no-op.
    pub fn kill_ant(&mut self, ant_id: AntId)
        requires
            wf(old(self)@),
        ensures
            final(self)@ == after_kill(old(self)@, ant_id),
            wf(final(self)@),
    {
        let idx = ant_id as usize;
        if idx < self.ant_alive.len() {
            self.ant_alive.set(idx, false);
            proof {
                assert(self@ =~~= (SimView {
                    alive: old(self)@.alive.update(ant_id as int, false),
                    ..old(self)@
                }));
            }
            let current = self.ant_colonies[idx];
            self.remove_ant_from_colony(ant_id, current);
        }
    }

    /// Recomputes the valid-directions masks of every colony the
    /// destroyed colony links to, in the fixed order north, south, east,
    /// west.
    pub fn update_neighbors_after_destruction(&mut self, destroyed_colony: ColonyId)
        requires
            wf(old(self)@),
            (destroyed_colony as int) < old(self)@.n,
        ensures
            final(self)@ == (SimView {
                mask: masks_after_neighbor_updates(old(self)@, destroyed_colony as int),
                ..old(self)@
            }),
            wf(final(self)@),
    {
        let idx = destroyed_colony as usize;
        let ghost v = old(self)@;
        let ghost d = destroyed_colony as int;
        match self.colony_north[idx] {
            Some(t) => {
                proof {
                    assert(spec_mask(self@, t as int) == spec_mask(v, t as int));
                }
                self.update_valid_directions(t);
            },
            None => {},
        }
        match self.colony_south[idx] {
            Some(t) => {
                proof {
                    assert(spec_mask(self@, t as int) == spec_mask(v, t as int));
                }
                self.update_valid_directions(t);
            },
            None => {},
        }
        match self.colony_east[idx] {
            Some(t) => {
                proof {
                    assert(spec_mask(self@, t as int) == spec_mask(v, t as int));
                }
                self.update_valid_directions(t);
            },
            None => {},
        }
        match self.colony_west[idx] {
            Some(t) => {
                proof {
                    assert(spec_mask(self@, t as int) == spec_mask(v, t as int));
                }
                self.update_valid_directions(t);
            },
            None => {},
        }
        proof {
            assert(final(self)@ =~~= (SimView {
                mask: masks_after_neighbor_updates(v, d),
                ..v
            }));
        }
    }

    /// Computes where an agent wants to move against the current
    /// topology, without mutating anything but the random source: nowhere
    /// when its colony is destroyed or trapped, else through a uniformly
    /// drawn valid direction, re-checked against the target's tombstone.
    pub fn calculate_ant_move(&mut self, ant_id: AntId) -> (r: Option<ColonyId>)
        requires
            wf(old(self)@),
            (ant_id as int) < old(self)@.m(),
        ensures
            ({
                let v = old(self)@;
                let cur = v.pos[ant_id as int] as int;
                &&& (!v.valid[cur] ==> r is None && *final(self) == *old(self))
                &&& (v.valid[cur] && v.mask[cur] == 0 ==> r is None && *final(self) == *old(self))
                &&& (v.valid[cur] && v.mask[cur] != 0 ==> {
                    let dirs = dirs_of_mask(v.mask[cur]);
                    let pick = spec_next_range(v.rng, dirs.len() as u32, DRAW_LIMIT as nat);
                    let d = dirs[pick.1 as int];
                    let nb = link(v, cur, d);
                    &&& final(self)@ == (SimView { rng: pick.0, ..v })
                    &&& r == (if nb is Some && v.valid[nb->0 as int] {
                        nb
                    } else {
                        None::<u16>
                    })
                })
            }),
            r is Some ==> (r->0 as int) < old(self)@.n && old(self)@.valid[r->0 as int],
            wf(final(self)@),
            (final(self)@, r) == spec_calc(old(self)@, ant_id as int),
    {
        let ant_idx = ant_id as usize;
        let current_colony = self.ant_colonies[ant_idx];
        let current_idx = current_colony as usize;
        if !self.colony_valid[current_idx] {
            return None;
        }
        let valid_dirs = self.colony_valid_dirs[current_idx];
        if valid_dirs == 0 {
            return None;
        }
        match self.select_random_direction(valid_dirs) {
            Some(direction) => {
                match self.get_neighbor(current_colony, direction) {
                    Some(target_colony) => {
                        if self.colony_valid[target_colony as usize] {
                            Some(target_colony)
                        } else {
                            None
                        }
                    },
                    None => None,
                }
            },
            None => None,
        }
    }

    /// Commits one queued move: a target destroyed since the compute
    /// phase kills the mover, which leaves its colony's ledger exactly
    /// once; an occupied target collides, killing the mover (already
    /// evicted by then) and the target's witness occupant, emitting the
    /// destruction message and tombstoning the target; an empty target
    /// receives the mover and charges one turn.
    pub fn move_ant_to_colony(
        &mut self,
        ant_id: AntId,
        target_colony: ColonyId,
        destructions: &mut Vec<Vec<u8>>,
    )
        requires
            wf(old(self)@),
            (ant_id as int) < old(self)@.m(),
            old(self)@.alive[ant_id as int],
            (target_colony as int) < old(self)@.n,
            old(self)@.moves[ant_id as int] < old(self)@.max_moves,
        ensures
            final(self)@ == spec_move(old(self)@, ant_id, target_colony).0,
            wf(final(self)@),
            ({
                let emitted = spec_move(old(self)@, ant_id, target_colony).1;
                match emitted {
                    Some(m) => final(destructions).deep_view() == old(
                        destructions,
                    ).deep_view().push(m),
                    None => *final(destructions) == *old(destructions),
                }
            }),
    {
        let ant_idx = ant_id as usize;
        let current_colony = self.ant_colonies[ant_idx];
        let target_idx = target_colony as usize;
        if !self.colony_valid[target_idx] {
            self.kill_ant(ant_id);
            return ;
        }
        self.remove_ant_from_colony(ant_id, current_colony);
        if self.colony_ant_count[target_idx] > 0 {
            let other_ant = self.colony_first_ant[target_idx];
            let other_named = match other_ant {
                Some(o) => o,
                None => 0,
            };
            let msg = destruction_message(&self.colony_names[target_idx], ant_id, other_named);
            proof {
                assert(self.colony_names@[target_idx as int]@ == old(self)@.names[target_idx as int]);
            }
            destructions.push(msg);
            // the mover already left its colony's ledger above; marking
            // it dead must not evict it a second time
            self.ant_alive.set(ant_idx, false);
            proof {
                assert(self@ =~~= (SimView {
                    alive: old(self)@.alive.update(ant_id as int, false),
                    ..after_removal(old(self)@, ant_id, current_colony as int)
                }));
            }
            match other_ant {
                Some(o) => self.kill_ant(o),
                None => {},
            }
            self.destroy_colony(target_colony);
            proof {
                assert(final(self)@ =~~= spec_move(old(self)@, ant_id, target_colony).0);
                assert(final(destructions).deep_view() =~~= old(destructions).deep_view().push(
                    spec_move(old(self)@, ant_id, target_colony).1->0,
                ));
            }
        } else {
            self.ant_colonies.set(ant_idx, target_colony);
            let mv = self.ant_moves[ant_idx];
            self.ant_moves.set(ant_idx, mv + 1);
            let cnt = self.colony_ant_count[target_idx];
            if cnt < u32::MAX {
                self.colony_ant_count.set(target_idx, cnt + 1);
            }
            self.colony_first_ant.set(target_idx, Some(ant_id));
            proof {
                assert(self@.count =~= spec_move(old(self)@, ant_id, target_colony).0.count);
                assert(final(self)@ =~~= spec_move(old(self)@, ant_id, target_colony).0);
            }
        }
    }

    /// Runs one two-phase round: first every eligible agent computes its
    /// intended move against the current topology — a trapped or doomed
    /// agent consumes a turn on the spot — then the queued moves commit
    /// in ascending agent order with collision detection. Returns the
    /// number of agent turns consumed. A round preserves the occupancy
    /// invariant, never revives an agent or a colony, and charges each
    /// agent at most one turn, only while under its budget.
    pub fn step_simulation(&mut self, destructions: &mut Vec<Vec<u8>>) -> (moves_count: u32)
        requires
            wf(old(self)@),
        ensures
            wf(final(self)@),
            same_run(old(self)@, final(self)@),
            forall|x: int|
                0 <= x < old(self)@.n ==> (!old(self)@.valid[x] ==> !final(self)@.valid[x]),
            forall|x: int|
                0 <= x < old(self)@.m() ==> (final(self)@.alive[x] ==> old(self)@.alive[x]),
            forall|x: int|
                0 <= x < old(self)@.m() ==> old(self)@.moves[x] <= #[trigger] final(self)@.moves[x]
                    <= old(self)@.moves[x] + 1,
            forall|x: int|
                0 <= x < old(self)@.m() && #[trigger] final(self)@.moves[x] > old(self)@.moves[x]
                    ==> old(self)@.moves[x] < old(self)@.max_moves,
            tallied(old(self)@) ==> tallied(final(self)@),
            old(destructions).deep_view().is_prefix_of(final(destructions).deep_view()),
            moves_count as int <= old(self)@.m(),
            final(self)@ == spec_step(old(self)@).0,
            final(destructions).deep_view() == old(destructions).deep_view() + spec_step(
                old(self)@,
            ).1,
            moves_count as int == spec_step(old(self)@).2,
    {
        let m = self.ant_colonies.len();
        let max_moves = self.config.max_moves;
        let mut pending_moves: Vec<(AntId, ColonyId)> = Vec::new();
        let mut moves_count: u32 = 0;
        let mut i: usize = 0;
        while i < m
            invariant
                wf(self@),
                i <= m,
                m == old(self)@.m(),
                max_moves == old(self)@.max_moves,
                self@ == (SimView { rng: self@.rng, moves: self@.moves, ..old(self)@ }),
                forall|x: int| i <= x < m ==> self@.moves[x] == old(self)@.moves[x],
                forall|x: int|
                    0 <= x < m ==> old(self)@.moves[x] <= #[trigger] self@.moves[x] <= old(
                        self,
                    )@.moves[x] + 1,
                forall|x: int|
                    0 <= x < m && self@.moves[x] > old(self)@.moves[x] ==> old(self)@.moves[x]
                        < max_moves,
                moves_count as int + pending_moves@.len() <= i,
                forall|k: int|
                    0 <= k < pending_moves@.len() ==> ((#[trigger] pending_moves@[k]).0 as int) < m
                        && (pending_moves@[k].1 as int) < old(self)@.n && (pending_moves@[k].0
                        as int) < i,
                forall|k: int|
                    0 <= k < pending_moves@.len() ==> #[trigger] self@.moves[pending_moves@[k].0
                        as int] == old(self)@.moves[pending_moves@[k].0 as int] && old(
                        self,
                    )@.moves[pending_moves@[k].0 as int] < max_moves,
                forall|k1: int, k2: int|
                    0 <= k1 < k2 < pending_moves@.len() ==> (#[trigger] pending_moves@[k1]).0 < (
                    #[trigger] pending_moves@[k2]).0,
                (self@, pending_moves@, moves_count as int) == spec_phase_one(
                    old(self)@,
                    i as nat,
                ),
                *destructions == *old(destructions),
            decreases m - i,
        {
            let ghost pre_v = self@;
            let ghost pre_p = pending_moves@;
            let ghost pre_m = moves_count as int;
            if self.ant_alive[i] {
                let mv = self.ant_moves[i];
                if mv < max_moves {
                    match self.calculate_ant_move(i as AntId) {
                        Some(t) => {
                            pending_moves.push((i as AntId, t));
                        },
                        None => {
                            self.ant_moves.set(i, mv + 1);
                            moves_count = moves_count + 1;
                        },
                    }
                }
            }
            proof {
                assert(spec_phase_one(old(self)@, (i + 1) as nat) == (
                    self@,
                    pending_moves@,
                    moves_count as int,
                )) by {
                    assert(spec_phase_one(old(self)@, i as nat) == (pre_v, pre_p, pre_m));
                }
            }
            i = i + 1;
        }
        let ghost half = self@;
        proof {
            if tallied(old(self)@) {
                crate::state::lemma_tallied_same_core(old(self)@, half);
            }
        }
        let ghost mc_one = moves_count as int;
        let ghost pending_view = pending_moves@;
        let pn = pending_moves.len();
        let mut j: usize = 0;
        while j < pn
            invariant
                wf(self@),
                j <= pn,
                pn == pending_moves@.len(),
                m == old(self)@.m(),
                spec_phase_one(old(self)@, m as nat) == (half, pending_view, mc_one),
                pending_view == pending_moves@,
                self@ == spec_phase_two(half, pending_view, j as nat).0,
                destructions.deep_view() == old(destructions).deep_view() + spec_phase_two(
                    half,
                    pending_view,
                    j as nat,
                ).1,
                moves_count as int == mc_one + spec_phase_two(half, pending_view, j as nat).2,
                same_run(old(self)@, self@),
                forall|k: int|
                    0 <= k < pn ==> ((#[trigger] pending_moves@[k]).0 as int) < m && (
                    pending_moves@[k].1 as int) < old(self)@.n,
                forall|k1: int, k2: int|
                    0 <= k1 < k2 < pn ==> (#[trigger] pending_moves@[k1]).0 < (
                    #[trigger] pending_moves@[k2]).0,
                forall|x: int|
                    0 <= x < old(self)@.n ==> (!old(self)@.valid[x] ==> !self@.valid[x]),
                forall|x: int| 0 <= x < m ==> (self@.alive[x] ==> old(self)@.alive[x]),
                forall|x: int|
                    0 <= x < m ==> old(self)@.moves[x] <= #[trigger] self@.moves[x] <= old(
                        self,
                    )@.moves[x] + 1,
                forall|x: int|
                    0 <= x < m && self@.moves[x] > old(self)@.moves[x] ==> old(self)@.moves[x]
                        < old(self)@.max_moves,
                forall|k: int|
                    j <= k < pn ==> #[trigger] self@.moves[pending_moves@[k].0 as int] == old(
                        self,
                    )@.moves[pending_moves@[k].0 as int] && old(self)@.moves[pending_moves@[k].0
                        as int] < old(self)@.max_moves,
                tallied(old(self)@) ==> tallied(self@),
                old(destructions).deep_view().is_prefix_of(destructions.deep_view()),
                moves_count as int + (pn - j) <= m,
            decreases pn - j,
        {
            let entry = pending_moves[j];
            let ant_id = entry.0;
            let target = entry.1;
            let ghost pre = self@;
            let ghost dpre = destructions.deep_view();
            let ghost mpre = moves_count as int;
            if self.ant_alive[ant_id as usize] {
                self.move_ant_to_colony(ant_id, target, destructions);
                proof {
                    lemma_move_frame(pre, ant_id, target);
                    if tallied(old(self)@) {
                        lemma_move_preserves_tallied(pre, ant_id, target);
                    }
                    let d0 = old(destructions).deep_view();
                    assert(destructions.deep_view().subrange(0, d0.len() as int) =~= d0) by {
                        assert(dpre.subrange(0, d0.len() as int) =~= d0);
                    }
                }
                moves_count = moves_count + 1;
            }
            proof {
                assert(spec_phase_two(half, pending_view, (j + 1) as nat).0 == self@
                    && destructions.deep_view() == old(destructions).deep_view()
                    + spec_phase_two(half, pending_view, (j + 1) as nat).1 && moves_count as int
                    == mc_one + spec_phase_two(half, pending_view, (j + 1) as nat).2) by {
                    let prev = spec_phase_two(half, pending_view, j as nat);
                    assert(prev.0 == pre);
                    assert(dpre == old(destructions).deep_view() + prev.1);
                    assert(mpre == mc_one + prev.2);
                    if pre.alive[pending_view[j as int].0 as int] {
                        let out = spec_move(pre, pending_view[j as int].0, pending_view[j as int].1);
                        if out.1 is Some {
                            assert(destructions.deep_view() =~~= old(destructions).deep_view() + prev.1.push(out.1->0));
                        }
                    }
                }
            }
            j = j + 1;
        }
        proof {
            assert(spec_phase_two(half, pending_view, pn as nat).0 == self@);
            assert(spec_step(old(self)@).0 == self@);
            assert(destructions.deep_view() == old(destructions).deep_view() + spec_step(
                old(self)@,
            ).1);
            assert(moves_count as int == spec_step(old(self)@).2);
        }
        moves_count
    }

    /// Runs rounds until every agent is dead or every alive agent has
    /// exhausted its move budget, or — as a safety net that correct
    /// termination never reaches — until the round ceiling is passed.
    /// Returns the rounds run, the agent turns consumed, the destruction
    /// messages in order, and the sorted survivor list.
    pub fn run_simulation(&mut self) -> (result: SimulationResult)
        requires
            wf(old(self)@),
        ensures
            wf(final(self)@),
            same_run(old(self)@, final(self)@),
            forall|x: int|
                0 <= x < old(self)@.n ==> (!old(self)@.valid[x] ==> !final(self)@.valid[x]),
            forall|x: int|
                0 <= x < old(self)@.m() ==> (final(self)@.alive[x] ==> old(self)@.alive[x]),
            forall|x: int|
                0 <= x < old(self)@.m() && old(self)@.moves[x] <= old(self)@.max_moves
                    ==> #[trigger] final(self)@.moves[x] <= old(self)@.max_moves,
            tallied(old(self)@) ==> tallied(final(self)@),
            1 <= result.iterations <= MAX_ITERATIONS + 1,
            (forall|a: int| 0 <= a < final(self)@.m() ==> !final(self)@.alive[a]) || (forall|a: int|
                0 <= a < final(self)@.m() && final(self)@.alive[a] ==> final(self)@.moves[a]
                    >= final(self)@.max_moves) || result.iterations == MAX_ITERATIONS + 1,
            result.total_moves as int <= result.iterations as int * old(self)@.m(),
            sorted_lex(result.surviving_colonies.deep_view()),
            result.surviving_colonies.deep_view().to_multiset() == survivor_lines(
                final(self)@,
                final(self)@.n,
            ).to_multiset(),
            ({
                let full = spec_run_from(old(self)@, 0, (MAX_ITERATIONS + 1) as nat);
                &&& final(self)@ == full.0
                &&& result.destructions.deep_view() == full.1
                &&& result.iterations as nat == full.2
                &&& result.total_moves as int == full.3
            }),
    {
        let mut iteration: u32 = 0;
        let mut total_moves: u64 = 0;
        let mut destructions: Vec<Vec<u8>> = Vec::new();
        loop
            invariant_except_break
                wf(self@),
                same_run(old(self)@, self@),
                forall|x: int|
                    0 <= x < old(self)@.n ==> (!old(self)@.valid[x] ==> !self@.valid[x]),
                forall|x: int| 0 <= x < old(self)@.m() ==> (self@.alive[x] ==> old(self)@.alive[x]),
                forall|x: int|
                    0 <= x < old(self)@.m() && old(self)@.moves[x] <= old(self)@.max_moves
                        ==> #[trigger] self@.moves[x] <= old(self)@.max_moves,
                tallied(old(self)@) ==> tallied(self@),
                iteration <= MAX_ITERATIONS,
                total_moves as int <= iteration as int * old(self)@.m(),
                ({
                    let full = spec_run_from(old(self)@, 0, (MAX_ITERATIONS + 1) as nat);
                    let rest = spec_run_from(
                        self@,
                        iteration as nat,
                        (MAX_ITERATIONS + 1 - iteration) as nat,
                    );
                    &&& full.0 == rest.0
                    &&& full.1 =~= destructions.deep_view() + rest.1
                    &&& full.2 == rest.2
                    &&& full.3 == total_moves as int + rest.3
                }),
            ensures
                wf(self@),
                same_run(old(self)@, self@),
                forall|x: int|
                    0 <= x < old(self)@.n ==> (!old(self)@.valid[x] ==> !self@.valid[x]),
                forall|x: int| 0 <= x < old(self)@.m() ==> (self@.alive[x] ==> old(self)@.alive[x]),
                forall|x: int|
                    0 <= x < old(self)@.m() && old(self)@.moves[x] <= old(self)@.max_moves
                        ==> #[trigger] self@.moves[x] <= old(self)@.max_moves,
                tallied(old(self)@) ==> tallied(self@),
                1 <= iteration <= MAX_ITERATIONS + 1,
                total_moves as int <= iteration as int * old(self)@.m(),
                (forall|a: int| 0 <= a < self@.m() ==> !self@.alive[a]) || (forall|a: int|
                    0 <= a < self@.m() && self@.alive[a] ==> self@.moves[a] >= self@.max_moves)
                    || iteration == MAX_ITERATIONS + 1,
                ({
                    let full = spec_run_from(old(self)@, 0, (MAX_ITERATIONS + 1) as nat);
                    &&& full.0 == self@
                    &&& full.1 =~= destructions.deep_view()
                    &&& full.2 == iteration as nat
                    &&& full.3 == total_moves as int
                }),
            decreases MAX_ITERATIONS - iteration,
        {
            let ghost pre = self@;
            let ghost dpre = destructions.deep_view();
            let ghost tpre = total_moves as int;
            let ghost itpre = iteration as nat;
            let moves_this_iteration = self.step_simulation(&mut destructions);
            proof {
                assert(spec_step(pre).0 == self@);
                assert(destructions.deep_view() == dpre + spec_step(pre).1);
                let mm = old(self)@.m();
                let it = iteration as int;
                assert(mm <= 0xFFFF);
                assert(it * mm <= 65535000000) by (nonlinear_arith)
                    requires
                        0 <= it <= 1000000,
                        0 <= mm <= 0xFFFF,
                ;
                assert((it + 1) * mm == it * mm + mm) by (nonlinear_arith);
            }
            total_moves = total_moves + moves_this_iteration as u64;
            iteration = iteration + 1;
            let finished_agents = self.all_ants_dead() || self.all_ants_reached_max_moves();
            proof {
                let full = spec_run_from(old(self)@, 0, (MAX_ITERATIONS + 1) as nat);
                let rest_pre = spec_run_from(pre, itpre, (MAX_ITERATIONS + 1 - itpre) as nat);
                let st = spec_step(pre);
                let done = all_dead(st.0) || all_maxed(st.0) || itpre + 1 > MAX_ITERATIONS;
                assert(finished_agents == (all_dead(self@) || all_maxed(self@)));
                let fuelv = (MAX_ITERATIONS + 1 - itpre) as nat;
                assert(fuelv >= 1);
                if done || fuelv <= 1 {
                    assert(rest_pre == (st.0, st.1, itpre + 1, st.2));
                } else {
                    let rest_new = spec_run_from(st.0, itpre + 1, (fuelv - 1) as nat);
                    assert(rest_pre == (rest_new.0, st.1 + rest_new.1, rest_new.2, st.2
                        + rest_new.3));
                    assert((MAX_ITERATIONS + 1 - (itpre + 1)) as nat == (fuelv - 1) as nat);
                    assert(full.1 =~= destructions.deep_view() + rest_new.1);
                }
            }
            if finished_agents {
                break ;
            }
            if iteration > MAX_ITERATIONS {
                break ;
            }
        }
        let surviving_colonies = self.get_surviving_colonies();
        SimulationResult { iterations: iteration, total_moves, destructions, surviving_colonies }
    }

    /// Whether no agent is alive any more.
    pub fn all_ants_dead(&self) -> (r: bool)
        requires
            wf(self@),
        ensures
            r == (forall|a: int| 0 <= a < self@.m() ==> !self@.alive[a]),
    {
        let m = self.ant_alive.len();
        let mut i: usize = 0;
        while i < m
            invariant
                wf(self@),
                i <= m,
                m == self@.m(),
                forall|a: int| 0 <= a < i ==> !self@.alive[a],
            decreases m - i,
        {
            if self.ant_alive[i] {
                return false;
            }
            i = i + 1;
        }
        true
    }

    /// Whether every alive agent has exhausted its move budget.
    pub fn all_ants_reached_max_moves(&self) -> (r: bool)
        requires
            wf(self@),
        ensures
            r == (forall|a: int|
                0 <= a < self@.m() && self@.alive[a] ==> self@.moves[a] >= self@.max_moves),
    {
        let m = self.ant_alive.len();
        let max_moves = self.config.max_moves;
        let mut i: usize = 0;
        while i < m
            invariant
                wf(self@),
                i <= m,
                m == self@.m(),
                max_moves == self@.max_moves,
                forall|a: int| 0 <= a < i && self@.alive[a] ==> self@.moves[a] >= self@.max_moves,
            decreases m - i,
        {
            if self.ant_alive[i] && self.ant_moves[i] < max_moves {
                return false;
            }
            i = i + 1;
        }
        true
    }

    /// Renders one surviving colony's line: its name, then each of the
    /// four directions in fixed order, naming the neighbor only when the
    /// link exists and its target is still valid.
    fn render_survivor_line(&self, i: usize) -> (r: Vec<u8>)
        requires
            wf(self@),
            (i as int) < self@.n,
        ensures
            r@ == survivor_line(self@, i as int),
    {
        let mut line: Vec<u8> = Vec::new();
        push_bytes(&mut line, &self.colony_names[i]);
        proof {
            assert(self.colony_names@[i as int]@ == self@.names[i as int]);
        }
        match self.colony_north[i] {
            Some(t) => {
                if self.colony_valid[t as usize] {
                    push_dir_label(&mut line, Direction::North);
                    push_bytes(&mut line, &self.colony_names[t as usize]);
                    proof {
                        assert(self.colony_names@[t as int]@ == self@.names[t as int]);
                    }
                }
            },
            None => {},
        }
        proof {
            assert(line@ =~= self@.names[i as int] + link_fragment(
                self@,
                i as int,
                Direction::North,
            ));
        }
        match self.colony_south[i] {
            Some(t) => {
                if self.colony_valid[t as usize] {
                    push_dir_label(&mut line, Direction::South);
                    push_bytes(&mut line, &self.colony_names[t as usize]);
                    proof {
                        assert(self.colony_names@[t as int]@ == self@.names[t as int]);
                    }
                }
            },
            None => {},
        }
        proof {
            assert(line@ =~= self@.names[i as int] + link_fragment(self@, i as int, Direction::North)
                + link_fragment(self@, i as int, Direction::South));
        }
        match self.colony_east[i] {
            Some(t) => {
                if self.colony_valid[t as usize] {
                    push_dir_label(&mut line, Direction::East);
                    push_bytes(&mut line, &self.colony_names[t as usize]);
                    proof {
                        assert(self.colony_names@[t as int]@ == self@.names[t as int]);
                    }
                }
            },
            None => {},
        }
        proof {
            assert(line@ =~= self@.names[i as int] + link_fragment(self@, i as int, Direction::North)
                + link_fragment(self@, i as int, Direction::South) + link_fragment(
                self@,
                i as int,
                Direction::East,
            ));
        }
        match self.colony_west[i] {
            Some(t) => {
                if self.colony_valid[t as usize] {
                    push_dir_label(&mut line, Direction::West);
                    push_bytes(&mut line, &self.colony_names[t as usize]);
                    proof {
                        assert(self.colony_names@[t as int]@ == self@.names[t as int]);
                    }
                }
            },
            None => {},
        }
        proof {
            assert(line@ =~= survivor_line(self@, i as int));
        }
        line
    }

    /// The survivor list: one line per still-valid colony in the input
    /// format, sorted lexicographically for reproducible output.
    pub fn get_surviving_colonies(&self) -> (r: Vec<Vec<u8>>)
        requires
            wf(self@),
        ensures
            sorted_lex(r.deep_view()),
            r.deep_view().to_multiset() == survivor_lines(self@, self@.n).to_multiset(),
    {
        let n = self.num_colonies;
        let mut survivors: Vec<Vec<u8>> = Vec::new();
        let mut i: usize = 0;
        while i < n
            invariant
                wf(self@),
                i <= n,
                n == self@.n,
                survivors.deep_view() =~~= survivor_lines(self@, i as int),
            decreases n - i,
        {
            if self.colony_valid[i] {
                let line = self.render_survivor_line(i);
                let ghost pre = survivors.deep_view();
                survivors.push(line);
                proof {
                    assert(survivors.deep_view() =~~= pre.push(line@));
                    assert(line@ =~= line.deep_view());
                }
            }
            proof {
                assert(survivors.deep_view() =~~= survivor_lines(self@, i + 1));
            }
            i = i + 1;
        }
        sort_lines(survivors)
    }

    /// Tombstones a colony: marks it invalid, zeroes its occupancy and
    /// mask, and recomputes its neighbors' masks; out-of-range
    /// identifiers are a silent no-op.
    pub fn destroy_colony(&mut self, colony_id: ColonyId)
        requires
            wf(old(self)@),
        ensures
            final(self)@ == after_destroy(old(self)@, colony_id),
            wf(final(self)@),
    {
        let idx = colony_id as usize;
        if idx >= self.num_colonies {
            return ;
        }
        self.colony_valid.set(idx, false);
        self.colony_ant_count.set(idx, 0);
        self.colony_first_ant.set(idx, None);
        self.colony_valid_dirs.set(idx, 0);
        proof {
            assert(self@ =~~= (SimView {
                valid: old(self)@.valid.update(colony_id as int, false),
                count: old(self)@.count.update(colony_id as int, 0u32),
                witness: old(self)@.witness.update(colony_id as int, None::<u16>),
                mask: old(self)@.mask.update(colony_id as int, 0u8),
                ..old(self)@
            }));
        }
        self.update_neighbors_after_destruction(colony_id);
        proof {
            assert(final(self)@ =~~= after_destroy(old(self)@, colony_id));
        }
    }
}

} // verus!

verus! {

/// The outcome of a complete run: rounds executed, agent turns consumed,
/// the destruction messages in the order they were emitted, and the
/// sorted survivor lines.
pub struct SimulationResult {
    pub iterations: u32,
    pub total_moves: u64,
    pub destructions: Vec<Vec<u8>>,
    pub surviving_colonies: Vec<Vec<u8>>,
}

} // verus!
