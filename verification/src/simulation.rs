//! The simulation state: colonies, agents, occupancy index and the random
//! source, laid out as parallel arrays indexed by identifier.

use crate::rng::{spec_next_range, FastRng, DRAW_LIMIT};
use crate::state::{
    dirs_of_mask, lemma_mask_bits, lemma_mask_nonzero, lemma_occ_bounds, lemma_occ_except,
    lemma_occ_zero, link, occ, occ_below, presence, spec_mask, tallied, wf, SimView,
};
use crate::types::{AntId, ColonyId, Direction, SimulationConfig};
use vstd::pervasive::VecAdditionalExecFns;
use vstd::prelude::*;

verus! {

/// Relies on `std::time::SystemTime::now` and `Duration::as_secs`: the
/// seconds since the Unix epoch, used only to seed a run that was given
/// no seed. Nothing is promised of the value.
#[verifier::external_body]
fn now_seconds() -> u64 {
    match std::time::SystemTime::now().duration_since(std::time::UNIX_EPOCH) {
        Ok(d) => d.as_secs(),
        Err(_) => 0,
    }
}

/// The whole state of one run, owned by the engine for the run's
/// duration. Colony columns are indexed by `ColonyId`, agent columns by
/// `AntId`; a destroyed colony keeps its slot (tombstoning) so that
/// identifiers stay stable.
pub struct Simulation {
    /// Tombstone flag per colony; `false` means permanently destroyed.
    pub colony_valid: Vec<bool>,
    pub colony_north: Vec<Option<ColonyId>>,
    pub colony_south: Vec<Option<ColonyId>>,
    pub colony_east: Vec<Option<ColonyId>>,
    pub colony_west: Vec<Option<ColonyId>>,
    /// Derived valid-directions bitmask per colony.
    pub colony_valid_dirs: Vec<u8>,
    /// Current position of each agent.
    pub ant_colonies: Vec<ColonyId>,
    /// Alive flag per agent.
    pub ant_alive: Vec<bool>,
    /// Consumed turns per agent.
    pub ant_moves: Vec<u16>,
    /// Number of alive agents in each colony.
    pub colony_ant_count: Vec<u32>,
    /// An arbitrary alive agent in each colony, named in collisions.
    pub colony_first_ant: Vec<Option<AntId>>,
    /// The run's random source.
    pub rng: FastRng,
    /// Display name per colony, as bytes.
    pub colony_names: Vec<Vec<u8>>,
    /// Immutable per-run parameters.
    pub config: SimulationConfig,
    /// Number of allocated colony slots.
    pub num_colonies: usize,
}

impl View for Simulation {
    type V = SimView;

    open spec fn view(&self) -> SimView {
        SimView {
            valid: self.colony_valid@,
            north: self.colony_north@,
            south: self.colony_south@,
            east: self.colony_east@,
            west: self.colony_west@,
            mask: self.colony_valid_dirs@,
            names: self.colony_names.deep_view(),
            count: self.colony_ant_count@,
            witness: self.colony_first_ant@,
            pos: self.ant_colonies@,
            alive: self.ant_alive@,
            moves: self.ant_moves@,
            rng: self.rng.state,
            n: self.num_colonies as int,
            max_moves: self.config.max_moves,
            cfg_ants: self.config.num_ants,
            cfg_map: self.config.map_file@,
            cfg_seed: self.config.seed,
        }
    }
}

/// Index of the first valid colony at or after `i`, or the number of
/// colonies when there is none.
pub open spec fn first_valid_from(valid: Seq<bool>, i: int) -> int
    decreases valid.len() - i,
{
    if i < 0 || i >= valid.len() {
        valid.len() as int
    } else if valid[i] {
        i
    } else {
        first_valid_from(valid, i + 1)
    }
}

/// State and colony produced by rejection placement from `state`: colony
/// indices are drawn uniformly below `bound` until one names a valid
/// colony; the drawing that exhausts the attempt budget falls back to
/// `fallback` instead.
pub open spec fn spec_place(
    state: u64,
    valid: Seq<bool>,
    bound: u32,
    fallback: u16,
    attempts: nat,
) -> (u64, u16)
    decreases attempts,
{
    let r = spec_next_range(state, bound, DRAW_LIMIT as nat);
    if valid[r.1 as int] {
        (r.0, r.1 as u16)
    } else if attempts <= 1 {
        (r.0, fallback)
    } else {
        spec_place(r.0, valid, bound, fallback, (attempts - 1) as nat)
    }
}

/// State and positions after placing `k` agents in turn, each by
/// rejection placement.
pub open spec fn spec_placements(
    state: u64,
    valid: Seq<bool>,
    bound: u32,
    fallback: u16,
    k: nat,
) -> (u64, Seq<u16>)
    decreases k,
{
    if k == 0 {
        (state, Seq::empty())
    } else {
        let prev = spec_placements(state, valid, bound, fallback, (k - 1) as nat);
        let p = spec_place(prev.0, valid, bound, fallback, DRAW_LIMIT as nat);
        (p.0, prev.1.push(p.1))
    }
}

/// The highest-numbered agent among the first `k` positioned at colony
/// `c`, or nothing when none is.
pub open spec fn last_at(pos: Seq<u16>, c: int, k: int) -> Option<u16>
    decreases k,
{
    if k <= 0 {
        None
    } else if pos[k - 1] == c {
        Some((k - 1) as u16)
    } else {
        last_at(pos, c, k - 1)
    }
}

/// What `last_at` answers, spelled out: the answer is a resident, is the
/// highest-numbered one, and is absent exactly when nobody is there.
pub proof fn lemma_last_at(pos: Seq<u16>, c: int, k: int)
    requires
        0 <= k <= pos.len(),
        k <= 0xFFFF,
    ensures
        last_at(pos, c, k) is Some ==> {
            let w = last_at(pos, c, k)->0 as int;
            &&& 0 <= w < k
            &&& pos[w] == c
            &&& forall|j: int| w < j < k ==> pos[j] != c
        },
        last_at(pos, c, k) is None <==> (forall|j: int| 0 <= j < k ==> pos[j] != c),
    decreases k,
{
    if k > 0 {
        lemma_last_at(pos, c, k - 1);
    }
}

/// `last_at` over a prefix only reads entries inside the prefix.
pub proof fn lemma_last_at_frame(p1: Seq<u16>, p2: Seq<u16>, c: int, k: int)
    requires
        forall|i: int| 0 <= i < k ==> p2[i] == p1[i],
    ensures
        last_at(p2, c, k) == last_at(p1, c, k),
    decreases k,
{
    if k > 0 {
        lemma_last_at_frame(p1, p2, c, k - 1);
    }
}

/// A vector of `len` copies of `value`.
fn filled<T: Copy>(len: usize, value: T) -> (v: Vec<T>)
    ensures
        v@ == Seq::new(len as nat, |i: int| value),
{
    let mut v: Vec<T> = Vec::new();
    while v.len() < len
        invariant
            v@ =~= Seq::new(v.len() as nat, |i: int| value),
            v.len() <= len,
        decreases len - v.len(),
    {
        v.push(value);
    }
    proof {
        assert(v@ =~= Seq::new(len as nat, |i: int| value));
    }
    v
}

/// What `get_neighbor` answers: the link out of `c` in direction `d`,
/// or nothing when `c` is out of range or destroyed.
pub open spec fn spec_get_neighbor(v: SimView, c: u16, d: Direction) -> Option<u16> {
    if c as int >= v.n || !v.valid[c as int] {
        None
    } else {
        link(v, c as int, d)
    }
}

impl Simulation {
    /// A fresh, empty simulation. The random source takes the configured
    /// seed, or the current time when none was configured; either way the
    /// generator never starts in the all-zero state.
    pub fn new(config: SimulationConfig) -> (s: Self)
        ensures
            s@.n == 0,
            s@.m() == 0,
            wf(s@),
            tallied(s@),
            s@.max_moves == config.max_moves,
            s@.cfg_ants == config.num_ants,
            s@.cfg_map == config.map_file@,
            s@.cfg_seed == config.seed,
            s@.rng != 0,
            config.seed is Some ==> s@.rng == (if config.seed->0 == 0 {
                1u64
            } else {
                config.seed->0
            }),
    {
        let seed: u64 = match config.seed {
            Some(s) => s,
            None => now_seconds(),
        };
        Simulation {
            colony_valid: Vec::new(),
            colony_north: Vec::new(),
            colony_south: Vec::new(),
            colony_east: Vec::new(),
            colony_west: Vec::new(),
            colony_valid_dirs: Vec::new(),
            ant_colonies: Vec::new(),
            ant_alive: Vec::new(),
            ant_moves: Vec::new(),
            colony_ant_count: Vec::new(),
            colony_first_ant: Vec::new(),
            rng: FastRng::new(seed),
            colony_names: Vec::new(),
            config,
            num_colonies: 0,
        }
    }

    /// Number of allocated colony slots, destroyed ones included.
    pub fn num_colonies(&self) -> (r: usize)
        ensures
            r as int == self@.n,
    {
        self.num_colonies
    }

    /// Number of agents, dead ones included.
    pub fn num_ants(&self) -> (r: usize)
        ensures
            r as int == self@.m(),
    {
        self.ant_colonies.len()
    }

    /// The neighbor of a colony in the given direction, or nothing when
    /// the colony is out of range or destroyed.
    pub fn get_neighbor(&self, colony_id: ColonyId, direction: Direction) -> (r: Option<ColonyId>)
        requires
            wf(self@),
        ensures
            r == spec_get_neighbor(self@, colony_id, direction),
            r is Some ==> r->0 < self@.n,
    {
        let idx = colony_id as usize;
        if idx >= self.num_colonies || !self.colony_valid[idx] {
            return None;
        }
        match direction {
            Direction::North => self.colony_north[idx],
            Direction::South => self.colony_south[idx],
            Direction::East => self.colony_east[idx],
            Direction::West => self.colony_west[idx],
        }
    }

    /// Picks a direction uniformly among the bits of a valid-directions
    /// mask, in the fixed order north, south, east, west; an empty mask
    /// yields nothing and leaves the random source untouched.
    pub fn select_random_direction(&mut self, valid_dirs_mask: u8) -> (r: Option<Direction>)
        requires
            valid_dirs_mask < 16,
        ensures
            valid_dirs_mask == 0 ==> r is None && *final(self) == *old(self),
            valid_dirs_mask != 0 ==> {
                let dirs = dirs_of_mask(valid_dirs_mask);
                let pick = spec_next_range(old(self)@.rng, dirs.len() as u32, DRAW_LIMIT as nat);
                &&& final(self)@ == (SimView { rng: pick.0, ..old(self)@ })
                &&& r == Some(dirs[pick.1 as int])
            },
    {
        if valid_dirs_mask == 0 {
            return None;
        }
        let mut dirs: Vec<Direction> = Vec::new();
        if valid_dirs_mask & 1 != 0 {
            dirs.push(Direction::North);
        }
        if valid_dirs_mask & 2 != 0 {
            dirs.push(Direction::South);
        }
        if valid_dirs_mask & 4 != 0 {
            dirs.push(Direction::East);
        }
        if valid_dirs_mask & 8 != 0 {
            dirs.push(Direction::West);
        }
        proof {
            assert(dirs@ =~= dirs_of_mask(valid_dirs_mask));
            lemma_mask_nonzero(valid_dirs_mask);
        }
        let random_idx = self.rng.next_range(dirs.len() as u32) as usize;
        Some(dirs[random_idx])
    }

    /// Recomputes one colony's valid-directions mask from its links and
    /// its neighbors' tombstone flags; out-of-range identifiers are a
    /// silent no-op, and a destroyed colony's mask is empty.
    pub fn update_valid_directions(&mut self, colony_id: ColonyId)
        requires
            wf(old(self)@),
        ensures
            (colony_id as int) < old(self)@.n ==> final(self)@ == (SimView {
                mask: old(self)@.mask.update(
                    colony_id as int,
                    spec_mask(old(self)@, colony_id as int),
                ),
                ..old(self)@
            }),
            colony_id as int >= old(self)@.n ==> *final(self) == *old(self),
            wf(final(self)@),
    {
        let idx = colony_id as usize;
        if idx >= self.num_colonies {
            return;
        }
        let ln: bool = match self.colony_north[idx] {
            Some(t) => self.colony_valid[t as usize],
            None => false,
        };
        let ls: bool = match self.colony_south[idx] {
            Some(t) => self.colony_valid[t as usize],
            None => false,
        };
        let le: bool = match self.colony_east[idx] {
            Some(t) => self.colony_valid[t as usize],
            None => false,
        };
        let lw: bool = match self.colony_west[idx] {
            Some(t) => self.colony_valid[t as usize],
            None => false,
        };
        let mask: u8 = if !self.colony_valid[idx] {
            0
        } else {
            (if ln {
                1u8
            } else {
                0u8
            }) | (if ls {
                2u8
            } else {
                0u8
            }) | (if le {
                4u8
            } else {
                0u8
            }) | (if lw {
                8u8
            } else {
                0u8
            })
        };
        proof {
            lemma_mask_bits(
                if ln { 1u8 } else { 0u8 },
                if ls { 2u8 } else { 0u8 },
                if le { 4u8 } else { 0u8 },
                if lw { 8u8 } else { 0u8 },
            );
            assert(mask == spec_mask(old(self)@, colony_id as int));
        }
        self.colony_valid_dirs.set(idx, mask);
    }

    /// Sets a colony's display name; out-of-range identifiers are a
    /// silent no-op.
    pub fn set_colony_name(&mut self, colony_id: ColonyId, name: Vec<u8>)
        requires
            wf(old(self)@),
        ensures
            (colony_id as int) < old(self)@.n ==> final(self)@ == (SimView {
                names: old(self)@.names.update(colony_id as int, name@),
                ..old(self)@
            }),
            colony_id as int >= old(self)@.n ==> *final(self) == *old(self),
            wf(final(self)@),
    {
        let idx = colony_id as usize;
        if idx < self.num_colonies {
            self.colony_names.set(idx, name);
            proof {
                assert(self.colony_names.deep_view() =~~= old(self)@.names.update(
                    colony_id as int,
                    name@,
                ));
            }
        }
    }

    /// Sets a directed link between two colonies; identifiers out of
    /// range are a silent no-op.
    pub fn set_neighbor(&mut self, colony_id: ColonyId, direction: Direction, neighbor_id: ColonyId)
        requires
            wf(old(self)@),
        ensures
            (colony_id as int) < old(self)@.n && (neighbor_id as int) < old(self)@.n ==> final(self)@
                == match direction {
                Direction::North => SimView {
                    north: old(self)@.north.update(colony_id as int, Some(neighbor_id)),
                    ..old(self)@
                },
                Direction::South => SimView {
                    south: old(self)@.south.update(colony_id as int, Some(neighbor_id)),
                    ..old(self)@
                },
                Direction::East => SimView {
                    east: old(self)@.east.update(colony_id as int, Some(neighbor_id)),
                    ..old(self)@
                },
                Direction::West => SimView {
                    west: old(self)@.west.update(colony_id as int, Some(neighbor_id)),
                    ..old(self)@
                },
            },
            !((colony_id as int) < old(self)@.n && (neighbor_id as int) < old(self)@.n) ==> *final(self)
                == *old(self),
            wf(final(self)@),
    {
        let idx = colony_id as usize;
        if idx >= self.num_colonies || neighbor_id as usize >= self.num_colonies {
            return;
        }
        match direction {
            Direction::North => self.colony_north.set(idx, Some(neighbor_id)),
            Direction::South => self.colony_south.set(idx, Some(neighbor_id)),
            Direction::East => self.colony_east.set(idx, Some(neighbor_id)),
            Direction::West => self.colony_west.set(idx, Some(neighbor_id)),
        }
    }

    /// Allocates the colony columns for `num_colonies` colonies, all
    /// valid, unnamed, unlinked and empty. Called once by the builder on
    /// a fresh simulation, before names and links are set.
    pub fn initialize_with_capacity(&mut self, num_colonies: usize)
        requires
            wf(old(self)@),
            old(self)@.n == 0,
            old(self)@.m() == 0,
            num_colonies <= 0x10000,
        ensures
            final(self)@ == (SimView {
                valid: Seq::new(num_colonies as nat, |i: int| true),
                north: Seq::new(num_colonies as nat, |i: int| None::<u16>),
                south: Seq::new(num_colonies as nat, |i: int| None::<u16>),
                east: Seq::new(num_colonies as nat, |i: int| None::<u16>),
                west: Seq::new(num_colonies as nat, |i: int| None::<u16>),
                mask: Seq::new(num_colonies as nat, |i: int| 0u8),
                names: Seq::new(num_colonies as nat, |i: int| Seq::<u8>::empty()),
                count: Seq::new(num_colonies as nat, |i: int| 0u32),
                witness: Seq::new(num_colonies as nat, |i: int| None::<u16>),
                n: num_colonies as int,
                ..old(self)@
            }),
            wf(final(self)@),
            tallied(final(self)@),
    {
        self.num_colonies = num_colonies;
        self.colony_valid = filled(num_colonies, true);
        self.colony_north = filled(num_colonies, None);
        self.colony_south = filled(num_colonies, None);
        self.colony_east = filled(num_colonies, None);
        self.colony_west = filled(num_colonies, None);
        self.colony_valid_dirs = filled(num_colonies, 0u8);
        self.colony_ant_count = filled(num_colonies, 0u32);
        self.colony_first_ant = filled(num_colonies, None);
        let mut names: Vec<Vec<u8>> = Vec::new();
        while names.len() < num_colonies
            invariant
                forall|i: int| 0 <= i < names.len() ==> (#[trigger] names@[i])@ == Seq::<u8>::empty(),
                names.len() <= num_colonies,
            decreases num_colonies - names.len(),
        {
            names.push(Vec::new());
        }
        self.colony_names = names;
        proof {
            assert forall|i: int| 0 <= i < num_colonies implies self@.names[i]
                =~= Seq::<u8>::empty() by {
                assert(self.colony_names@[i]@ == Seq::<u8>::empty());
            }
            assert(self@.names =~~= Seq::new(num_colonies as nat, |i: int| Seq::<u8>::empty()));
            assert forall|c: int| 0 <= c < num_colonies implies occ(self@, c) == 0 by {
                assert(occ_below(self@.alive, self@.pos, c, 0) == 0);
            }
            assert(final(self)@ =~~= (SimView {
                valid: Seq::new(num_colonies as nat, |i: int| true),
                north: Seq::new(num_colonies as nat, |i: int| None::<u16>),
                south: Seq::new(num_colonies as nat, |i: int| None::<u16>),
                east: Seq::new(num_colonies as nat, |i: int| None::<u16>),
                west: Seq::new(num_colonies as nat, |i: int| None::<u16>),
                mask: Seq::new(num_colonies as nat, |i: int| 0u8),
                names: Seq::new(num_colonies as nat, |i: int| Seq::<u8>::empty()),
                count: Seq::new(num_colonies as nat, |i: int| 0u32),
                witness: Seq::new(num_colonies as nat, |i: int| None::<u16>),
                n: num_colonies as int,
                ..old(self)@
            }));
            assert(wf(final(self)@));
            assert(tallied(final(self)@));
        }
    }

    /// The lowest-numbered still-valid colony, if any.
    fn first_valid_colony(&self) -> (r: Option<ColonyId>)
        requires
            wf(self@),
        ensures
            r is Some ==> r->0 as int == first_valid_from(self@.valid, 0) && (r->0 as int)
                < self@.n && self@.valid[r->0 as int],
            r is None ==> forall|c: int| 0 <= c < self@.n ==> !self@.valid[c],
    {
        let n = self.num_colonies;
        let mut i: usize = 0;
        while i < n
            invariant
                wf(self@),
                n == self@.n,
                i <= n,
                forall|j: int| 0 <= j < i ==> !self@.valid[j],
                first_valid_from(self@.valid, 0) == first_valid_from(self@.valid, i as int),
            decreases n - i,
        {
            if self.colony_valid[i] {
                proof {
                    assert(first_valid_from(self@.valid, i as int) == i);
                }
                return Some(i as ColonyId);
            }
            proof {
                assert(first_valid_from(self@.valid, i as int) == first_valid_from(
                    self@.valid,
                    i as int + 1,
                ));
            }
            i = i + 1;
        }
        None
    }

    /// Draws uniform colony indices until one names a valid colony; the
    /// draw that exhausts the attempt budget settles on `fallback`, which
    /// the caller found by scanning, so placement never picks a destroyed
    /// colony.
    fn draw_valid_colony(&mut self, fallback: ColonyId) -> (c: ColonyId)
        requires
            wf(old(self)@),
            old(self)@.n > 0,
            (fallback as int) < old(self)@.n,
            old(self)@.valid[fallback as int],
        ensures
            ({
                let p = spec_place(
                    old(self)@.rng,
                    old(self)@.valid,
                    old(self)@.n as u32,
                    fallback,
                    DRAW_LIMIT as nat,
                );
                final(self)@ == (SimView { rng: p.0, ..old(self)@ }) && c == p.1
            }),
            (c as int) < old(self)@.n,
            old(self)@.valid[c as int],
    {
        let bound = self.num_colonies as u32;
        let ghost orig = self@;
        let mut left: u64 = DRAW_LIMIT;
        loop
            invariant
                wf(self@),
                1 <= left <= DRAW_LIMIT,
                orig == old(self)@,
                self@ == (SimView { rng: self@.rng, ..orig }),
                bound == orig.n as u32,
                0 < orig.n <= 0x10000,
                (fallback as int) < orig.n,
                orig.valid[fallback as int],
                spec_place(orig.rng, orig.valid, bound, fallback, DRAW_LIMIT as nat) == spec_place(
                    self@.rng,
                    orig.valid,
                    bound,
                    fallback,
                    left as nat,
                ),
            decreases left,
        {
            let ghost pre: u64 = self@.rng;
            let drawn = self.rng.next_range(bound);
            let colony_id = drawn as ColonyId;
            if self.colony_valid[colony_id as usize] {
                proof {
                    assert(spec_place(pre, orig.valid, bound, fallback, left as nat) == (
                        self@.rng,
                        colony_id,
                    ));
                }
                return colony_id;
            }
            if left == 1 {
                proof {
                    assert(spec_place(pre, orig.valid, bound, fallback, 1nat) == (
                        self@.rng,
                        fallback,
                    ));
                }
                return fallback;
            }
            proof {
                assert(spec_place(pre, orig.valid, bound, fallback, left as nat) == spec_place(
                    self@.rng,
                    orig.valid,
                    bound,
                    fallback,
                    (left - 1) as nat,
                ));
            }
            left = left - 1;
        }
    }

    /// Creates `num_ants` agents, alive with empty move counters, and
    /// places each in turn at a random valid colony, keeping the
    /// occupancy ledger truthful. When no valid colony exists, placement
    /// is skipped entirely.
    pub fn initialize_ants(&mut self, num_ants: u16)
        requires
            wf(old(self)@),
            old(self)@.m() == 0,
            forall|c: int| 0 <= c < old(self)@.n ==> old(self)@.count[c] == 0,
            forall|c: int| 0 <= c < old(self)@.n ==> old(self)@.witness[c] is None,
            forall|c: int| 0 <= c < old(self)@.n && !old(self)@.valid[c] ==> old(self)@.mask[c] == 0,
        ensures
            (forall|c: int| 0 <= c < old(self)@.n ==> !old(self)@.valid[c]) ==> *final(self)
                == *old(self),
            (exists|c: int| 0 <= c < old(self)@.n && old(self)@.valid[c]) ==> ({
                let fallback = first_valid_from(old(self)@.valid, 0) as u16;
                let out = spec_placements(
                    old(self)@.rng,
                    old(self)@.valid,
                    old(self)@.n as u32,
                    fallback,
                    num_ants as nat,
                );
                let all_alive = Seq::new(num_ants as nat, |i: int| true);
                final(self)@ == (SimView {
                    pos: out.1,
                    alive: all_alive,
                    moves: Seq::new(num_ants as nat, |i: int| 0u16),
                    count: Seq::new(
                        old(self)@.n as nat,
                        |c: int| occ_below(all_alive, out.1, c, num_ants as int) as u32,
                    ),
                    witness: Seq::new(
                        old(self)@.n as nat,
                        |c: int| last_at(out.1, c, num_ants as int),
                    ),
                    rng: out.0,
                    ..old(self)@
                })
            }),
            tallied(final(self)@),
    {
        let fallback = match self.first_valid_colony() {
            Some(f) => f,
            None => {
                proof {
                    assert forall|c: int| 0 <= c < self@.n implies occ(self@, c) == 0 by {
                        assert(occ_below(self@.alive, self@.pos, c, 0) == 0);
                    }
                }
                return ;
            },
        };
        let ghost orig = self@;
        let m = num_ants as usize;
        self.ant_colonies = filled(m, 0u16);
        self.ant_alive = filled(m, true);
        self.ant_moves = filled(m, 0u16);
        let ghost base = self@;
        let mut ant_id: usize = 0;
        while ant_id < m
            invariant
                wf(self@),
                ant_id <= m,
                m == num_ants as usize,
                m <= 0xFFFF,
                base == (SimView {
                    pos: Seq::new(m as nat, |i: int| 0u16),
                    alive: Seq::new(m as nat, |i: int| true),
                    moves: Seq::new(m as nat, |i: int| 0u16),
                    ..orig
                }),
                orig == old(self)@,
                0 < orig.n <= 0x10000,
                (fallback as int) < orig.n,
                orig.valid[fallback as int],
                forall|c: int| 0 <= c < orig.n ==> orig.count[c] == 0,
                self@ == (SimView {
                    pos: self@.pos,
                    count: self@.count,
                    witness: self@.witness,
                    rng: self@.rng,
                    ..base
                }),
                self@.pos.len() == m,
                ({
                    let out = spec_placements(
                        orig.rng,
                        orig.valid,
                        orig.n as u32,
                        fallback,
                        ant_id as nat,
                    );
                    self@.rng == out.0 && self@.pos.subrange(0, ant_id as int) =~= out.1
                }),
                forall|j: int| ant_id <= j < m ==> self@.pos[j] == 0,
                forall|j: int| 0 <= j < ant_id ==> orig.valid[#[trigger] self@.pos[j] as int],
                forall|c: int|
                    0 <= c < orig.n ==> #[trigger] self@.count[c] == occ_below(
                        self@.alive,
                        self@.pos,
                        c,
                        ant_id as int,
                    ),
                forall|c: int|
                    0 <= c < orig.n ==> #[trigger] self@.witness[c] == last_at(
                        self@.pos,
                        c,
                        ant_id as int,
                    ),
            decreases m - ant_id,
        {
            let ghost before = self@;
            let c = self.draw_valid_colony(fallback);
            self.ant_colonies.set(ant_id, c);
            let cnt = self.colony_ant_count[c as usize];
            proof {
                lemma_occ_bounds(self@.alive, before.pos, c as int, ant_id as int);
                lemma_occ_except(
                    before.alive,
                    before.pos,
                    self@.alive,
                    self@.pos,
                    c as int,
                    ant_id as int,
                    ant_id as int,
                );
            }
            self.colony_ant_count.set(c as usize, cnt + 1);
            self.colony_first_ant.set(c as usize, Some(ant_id as AntId));
            proof {
                let cur = self@;
                assert forall|x: int| 0 <= x < orig.n implies #[trigger] cur.count[x] == occ_below(
                    cur.alive,
                    cur.pos,
                    x,
                    ant_id + 1,
                ) by {
                    lemma_occ_except(
                        before.alive,
                        before.pos,
                        cur.alive,
                        cur.pos,
                        x,
                        ant_id as int,
                        ant_id as int,
                    );
                    assert(occ_below(cur.alive, cur.pos, x, ant_id + 1) == occ_below(
                        cur.alive,
                        cur.pos,
                        x,
                        ant_id as int,
                    ) + presence(cur.alive[ant_id as int], cur.pos[ant_id as int], x));
                }
                assert forall|x: int| 0 <= x < orig.n implies #[trigger] cur.witness[x] == last_at(
                    cur.pos,
                    x,
                    ant_id + 1,
                ) by {
                    assert(last_at(cur.pos, x, ant_id + 1) == (if cur.pos[ant_id as int] == x {
                        Some(ant_id as u16)
                    } else {
                        last_at(cur.pos, x, ant_id as int)
                    }));
                    if cur.pos[ant_id as int] != x {
                        assert(last_at(cur.pos, x, ant_id as int) == last_at(
                            before.pos,
                            x,
                            ant_id as int,
                        )) by {
                            lemma_last_at_frame(before.pos, cur.pos, x, ant_id as int);
                        }
                    }
                }
                let out1 = spec_placements(
                    orig.rng,
                    orig.valid,
                    orig.n as u32,
                    fallback,
                    (ant_id + 1) as nat,
                );
                assert(cur.pos.subrange(0, ant_id + 1) =~= cur.pos.subrange(0, ant_id as int).push(
                    c,
                ));
                assert(cur.pos.subrange(0, ant_id as int) =~= before.pos.subrange(
                    0,
                    ant_id as int,
                ));
            }
            ant_id = ant_id + 1;
        }
        proof {
            let cur = self@;
            let out = spec_placements(
                orig.rng,
                orig.valid,
                orig.n as u32,
                fallback,
                num_ants as nat,
            );
            assert(cur.pos.subrange(0, m as int) =~= cur.pos);
            assert(first_valid_from(orig.valid, 0) == fallback as int);
            assert(final(self)@ =~~= (SimView {
                pos: out.1,
                alive: Seq::new(num_ants as nat, |i: int| true),
                moves: Seq::new(num_ants as nat, |i: int| 0u16),
                count: Seq::new(
                    orig.n as nat,
                    |c: int| occ_below(
                        Seq::new(num_ants as nat, |i: int| true),
                        out.1,
                        c,
                        num_ants as int,
                    ) as u32,
                ),
                witness: Seq::new(orig.n as nat, |c: int| last_at(out.1, c, num_ants as int)),
                rng: out.0,
                ..orig
            }));
            assert forall|x: int| 0 <= x < cur.n implies !(#[trigger] cur.valid[x]) ==> cur.count[x]
                == 0 && cur.witness[x] is None by {
                if !cur.valid[x] {
                    lemma_occ_zero(cur.alive, cur.pos, x, m as int);
                    lemma_last_at(cur.pos, x, m as int);
                }
            }
            assert forall|x: int| 0 <= x < cur.n implies (#[trigger] cur.witness[x] is Some
                ==> cur.alive[cur.witness[x]->0 as int] && cur.pos[cur.witness[x]->0 as int] == x)
                && (cur.count[x] > 0 ==> cur.witness[x] is Some) by {
                lemma_last_at(cur.pos, x, m as int);
                if cur.count[x] > 0 && cur.witness[x] is None {
                    lemma_occ_zero(cur.alive, cur.pos, x, m as int);
                }
            }
            assert(tallied(final(self)@));
        }
    }

    /// Recomputes the valid-directions masks of all colonies; the builder
    /// calls this once after all links are in place.
    pub fn update_all_valid_directions(&mut self)
        requires
            wf(old(self)@),
        ensures
            final(self)@ == (SimView {
                mask: Seq::new(old(self)@.n as nat, |c: int| spec_mask(old(self)@, c)),
                ..old(self)@
            }),
            wf(final(self)@),
    {
        let n = self.num_colonies;
        let mut colony_id: usize = 0;
        while colony_id < n
            invariant
                wf(self@),
                n == old(self)@.n,
                colony_id <= n,
                self@ == (SimView { mask: self@.mask, ..old(self)@ }),
                forall|c: int|
                    0 <= c < colony_id ==> self@.mask[c] == spec_mask(old(self)@, c),
                forall|c: int| colony_id <= c < n ==> self@.mask[c] == old(self)@.mask[c],
            decreases n - colony_id,
        {
            proof {
                assert(spec_mask(self@, colony_id as int) == spec_mask(old(self)@, colony_id as int));
            }
            self.update_valid_directions(colony_id as ColonyId);
            colony_id = colony_id + 1;
        }
        proof {
            assert(self@.mask =~= Seq::new(old(self)@.n as nat, |c: int| spec_mask(old(self)@, c)));
            assert(final(self)@ =~= (SimView {
                mask: Seq::new(old(self)@.n as nat, |c: int| spec_mask(old(self)@, c)),
                ..old(self)@
            }));
        }
    }
}

} // verus!
