//! Identifiers, compass directions and the per-run configuration.

use vstd::prelude::*;

verus! {

/// Colony identifier: an index into the colony arrays, assigned at load
/// time and never reused.
pub type ColonyId = u16;

/// Agent identifier: an index into the agent arrays, assigned at
/// initialization and stable for the run.
pub type AntId = u16;

/// The four compass directions a colony can link out through.
#[derive(Clone, Copy, Debug, PartialEq, Eq, Structural)]
pub enum Direction {
    North,
    South,
    East,
    West,
}

/// Bit assigned to each direction in a colony's valid-directions mask.
pub open spec fn direction_bit(d: Direction) -> u8 {
    match d {
        Direction::North => 1,
        Direction::South => 2,
        Direction::East => 4,
        Direction::West => 8,
    }
}

impl Direction {
    /// The direction's bit in a valid-directions mask.
    pub fn as_bit_mask(self) -> (r: u8)
        ensures
            r == direction_bit(self),
    {
        match self {
            Direction::North => 1,
            Direction::South => 2,
            Direction::East => 4,
            Direction::West => 8,
        }
    }
}

/// Immutable per-run parameters. When `seed` is absent the simulation
/// seeds itself from a time source, sacrificing reproducibility.
#[derive(Clone, Debug)]
pub struct SimulationConfig {
    pub max_moves: u16,
    pub num_ants: u16,
    pub map_file: String,
    pub seed: Option<u64>,
}

impl Default for SimulationConfig {
    /// No agents, the default move budget of ten thousand, no map, no seed.
    fn default() -> (c: Self)
        ensures
            c.max_moves == 10000,
            c.num_ants == 0,
            c.map_file@ == Seq::<char>::empty(),
            c.seed is None,
    {
        Self { max_moves: 10000, num_ants: 0, map_file: String::new(), seed: None }
    }
}

} // verus!
