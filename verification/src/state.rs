//! Mathematical model of the simulation state.
//!
//! `SimView` is the ghost image of the executable state: one sequence per
//! structure-of-arrays column. `wf` states the structural bounds that every
//! operation keeps; `tallied` states the occupancy invariant that holds
//! after every completed round. The counting lemmas relate the per-colony
//! occupant counter to the number of alive agents positioned there.

use crate::types::Direction;
use vstd::prelude::*;

verus! {

/// Ghost image of the whole simulation state.
#[verifier::ext_equal]
pub ghost struct SimView {
    /// Tombstone flag per colony; `false` means permanently destroyed.
    pub valid: Seq<bool>,
    pub north: Seq<Option<u16>>,
    pub south: Seq<Option<u16>>,
    pub east: Seq<Option<u16>>,
    pub west: Seq<Option<u16>>,
    /// Valid-directions bitmask per colony.
    pub mask: Seq<u8>,
    /// Display name per colony, as bytes.
    pub names: Seq<Seq<u8>>,
    /// Occupant count per colony.
    pub count: Seq<u32>,
    /// Witness occupant per colony.
    pub witness: Seq<Option<u16>>,
    /// Position per agent.
    pub pos: Seq<u16>,
    /// Alive flag per agent.
    pub alive: Seq<bool>,
    /// Consumed turns per agent.
    pub moves: Seq<u16>,
    /// Random-source state.
    pub rng: u64,
    /// Number of colonies.
    pub n: int,
    /// Per-agent move budget.
    pub max_moves: u16,
    /// Configured agent count.
    pub cfg_ants: u16,
    /// Configured map source.
    pub cfg_map: Seq<char>,
    /// Configured seed, if any.
    pub cfg_seed: Option<u64>,
}

impl SimView {
    /// Number of agents.
    pub open spec fn m(self) -> int {
        self.pos.len() as int
    }
}

/// A single agent's share in a colony's occupant count.
pub open spec fn presence(alive: bool, pos: u16, c: int) -> int {
    if alive && pos == c {
        1
    } else {
        0
    }
}

/// Number of alive agents among the first `k` whose position is `c`.
pub open spec fn occ_below(alive: Seq<bool>, pos: Seq<u16>, c: int, k: int) -> int
    decreases k,
{
    if k <= 0 {
        0
    } else {
        occ_below(alive, pos, c, k - 1) + presence(alive[k - 1], pos[k - 1], c)
    }
}

/// Number of alive agents positioned at colony `c`.
pub open spec fn occ(v: SimView, c: int) -> int {
    occ_below(v.alive, v.pos, c, v.m())
}

/// Structural bounds: column lengths agree, identifiers fit their arrays,
/// and every stored mask is a four-bit value.
pub open spec fn wf(v: SimView) -> bool {
    &&& v.valid.len() == v.n
    &&& v.north.len() == v.n
    &&& v.south.len() == v.n
    &&& v.east.len() == v.n
    &&& v.west.len() == v.n
    &&& v.mask.len() == v.n
    &&& v.names.len() == v.n
    &&& v.count.len() == v.n
    &&& v.witness.len() == v.n
    &&& v.alive.len() == v.pos.len()
    &&& v.moves.len() == v.pos.len()
    &&& v.n <= 0x10000
    &&& v.m() <= 0xFFFF
    &&& forall|c: int|
        0 <= c < v.n ==> {
            &&& (v.north[c] is Some ==> v.north[c]->0 < v.n)
            &&& (v.south[c] is Some ==> v.south[c]->0 < v.n)
            &&& (v.east[c] is Some ==> v.east[c]->0 < v.n)
            &&& (v.west[c] is Some ==> v.west[c]->0 < v.n)
        }
    &&& forall|c: int| 0 <= c < v.n ==> #[trigger] v.mask[c] < 16
    &&& forall|c: int| 0 <= c < v.n ==> (v.witness[c] is Some ==> v.witness[c]->0 < v.m())
    &&& forall|a: int| 0 <= a < v.m() ==> #[trigger] v.pos[a] < v.n
}

/// The occupancy invariant: for every valid colony the count equals the
/// number of alive agents positioned there, a witness, where set, is an
/// alive agent positioned there, and destroyed colonies are empty, with
/// no witness and no outgoing directions. It holds after every completed
/// round. Agents may stand on a destroyed colony (they are doomed and
/// never move again), and a colony may hold residents yet no witness:
/// the witness is an arbitrary occupant, not a guaranteed one.
pub open spec fn tallied(v: SimView) -> bool {
    &&& wf(v)
    &&& forall|c: int| 0 <= c < v.n && v.valid[c] ==> v.count[c] == occ(v, c)
    &&& forall|c: int|
        0 <= c < v.n && !v.valid[c] ==> v.count[c] == 0 && v.witness[c] is None && v.mask[c]
            == 0
    &&& forall|c: int|
        0 <= c < v.n && v.witness[c] is Some ==> v.alive[v.witness[c]->0 as int]
            && v.pos[v.witness[c]->0 as int] == c
}

/// The occupancy invariant only reads tombstones, masks, occupancy and
/// agent positions: two states that agree on those stand or fall
/// together.
pub proof fn lemma_tallied_same_core(a: SimView, b: SimView)
    requires
        tallied(a),
        wf(b),
        b.alive == a.alive,
        b.pos == a.pos,
        b.count == a.count,
        b.witness == a.witness,
        b.valid == a.valid,
        b.mask == a.mask,
        b.n == a.n,
    ensures
        tallied(b),
{
    assert(b.m() == a.m());
    assert forall|c: int| 0 <= c < b.n && b.valid[c] implies b.count[c] == occ(b, c) by {
        assert(a.count[c] == occ(a, c));
        assert(occ_below(b.alive, b.pos, c, b.m()) == occ_below(a.alive, a.pos, c, a.m()));
    }
    assert forall|c: int|
        0 <= c < b.n && !b.valid[c] implies b.count[c] == 0 && b.witness[c] is None && b.mask[c]
            == 0 by {
        assert(!a.valid[c]);
    }
    assert forall|c: int|
        0 <= c < b.n && b.witness[c] is Some implies b.alive[b.witness[c]->0 as int]
            && b.pos[b.witness[c]->0 as int] == c by {
        assert(a.witness[c] is Some);
    }
}

/// Changing at most the agent at index `j` changes a colony's occupant
/// count by exactly the difference of that agent's shares.
pub proof fn lemma_occ_except(
    a1: Seq<bool>,
    p1: Seq<u16>,
    a2: Seq<bool>,
    p2: Seq<u16>,
    c: int,
    k: int,
    j: int,
)
    requires
        forall|i: int| 0 <= i < k && i != j ==> a2[i] == a1[i] && p2[i] == p1[i],
    ensures
        occ_below(a2, p2, c, k) == occ_below(a1, p1, c, k) - (if 0 <= j < k {
            presence(a1[j], p1[j], c)
        } else {
            0
        }) + (if 0 <= j < k {
            presence(a2[j], p2[j], c)
        } else {
            0
        }),
    decreases k,
{
    if k > 0 {
        lemma_occ_except(a1, p1, a2, p2, c, k - 1, j);
    }
}

/// An occupant count lies between zero and the number of agents counted.
pub proof fn lemma_occ_bounds(alive: Seq<bool>, pos: Seq<u16>, c: int, k: int)
    ensures
        0 <= occ_below(alive, pos, c, k) <= (if k >= 0 {
            k
        } else {
            0
        }),
    decreases k,
{
    if k > 0 {
        lemma_occ_bounds(alive, pos, c, k - 1);
    }
}

/// A colony nobody alive stands on has occupant count zero.
pub proof fn lemma_occ_zero(alive: Seq<bool>, pos: Seq<u16>, c: int, k: int)
    requires
        forall|b: int| 0 <= b < k ==> !(alive[b] && pos[b] == c),
    ensures
        occ_below(alive, pos, c, k) == 0,
    decreases k,
{
    if k > 0 {
        lemma_occ_zero(alive, pos, c, k - 1);
    }
}

/// An alive agent standing on a colony keeps its occupant count positive.
pub proof fn lemma_occ_member(alive: Seq<bool>, pos: Seq<u16>, c: int, k: int, b: int)
    requires
        0 <= b < k,
        alive[b],
        pos[b] == c,
    ensures
        occ_below(alive, pos, c, k) >= 1,
    decreases k,
{
    lemma_occ_bounds(alive, pos, c, b);
    lemma_occ_except(alive, pos, alive, pos, c, k, k);
    if k - 1 == b {
        lemma_occ_bounds(alive, pos, c, k - 1);
    } else {
        lemma_occ_member(alive, pos, c, k - 1, b);
    }
}

/// The stored link out of colony `c` in direction `d`.
pub open spec fn link(v: SimView, c: int, d: Direction) -> Option<u16> {
    match d {
        Direction::North => v.north[c],
        Direction::South => v.south[c],
        Direction::East => v.east[c],
        Direction::West => v.west[c],
    }
}

/// Whether colony `c` has a link in direction `d` to a still-valid colony.
pub open spec fn links_to_valid(v: SimView, c: int, d: Direction) -> bool {
    match link(v, c, d) {
        Some(t) => v.valid[t as int],
        None => false,
    }
}

/// The derived valid-directions mask of colony `c`: a bit per direction
/// whose link exists and leads to a valid colony; destroyed colonies
/// have no outgoing directions at all.
pub open spec fn spec_mask(v: SimView, c: int) -> u8 {
    if !v.valid[c] {
        0
    } else {
        (if links_to_valid(v, c, Direction::North) {
            1u8
        } else {
            0u8
        }) | (if links_to_valid(v, c, Direction::South) {
            2u8
        } else {
            0u8
        }) | (if links_to_valid(v, c, Direction::East) {
            4u8
        } else {
            0u8
        }) | (if links_to_valid(v, c, Direction::West) {
            8u8
        } else {
            0u8
        })
    }
}

/// The directions whose bits are set in a valid-directions mask, in the
/// fixed order north, south, east, west.
pub open spec fn dirs_of_mask(mask: u8) -> Seq<Direction> {
    (if mask & 1 != 0 {
        seq![Direction::North]
    } else {
        Seq::empty()
    }) + (if mask & 2 != 0 {
        seq![Direction::South]
    } else {
        Seq::empty()
    }) + (if mask & 4 != 0 {
        seq![Direction::East]
    } else {
        Seq::empty()
    }) + (if mask & 8 != 0 {
        seq![Direction::West]
    } else {
        Seq::empty()
    })
}

/// Facts about a mask assembled from one summand per direction bit.
pub proof fn lemma_mask_bits(n0: u8, n1: u8, n2: u8, n3: u8)
    requires
        n0 == 0 || n0 == 1,
        n1 == 0 || n1 == 2,
        n2 == 0 || n2 == 4,
        n3 == 0 || n3 == 8,
    ensures
        (n0 | n1 | n2 | n3) < 16,
        ((n0 | n1 | n2 | n3) == 0) <==> (n0 == 0 && n1 == 0 && n2 == 0 && n3 == 0),
        ((n0 | n1 | n2 | n3) & 1 != 0) <==> n0 == 1,
        ((n0 | n1 | n2 | n3) & 2 != 0) <==> n1 == 2,
        ((n0 | n1 | n2 | n3) & 4 != 0) <==> n2 == 4,
        ((n0 | n1 | n2 | n3) & 8 != 0) <==> n3 == 8,
{
    assert((n0 | n1 | n2 | n3) < 16 && (((n0 | n1 | n2 | n3) == 0) <==> (n0 == 0 && n1 == 0 && n2
        == 0 && n3 == 0)) && (((n0 | n1 | n2 | n3) & 1 != 0) <==> n0 == 1) && (((n0 | n1 | n2 | n3)
        & 2 != 0) <==> n1 == 2) && (((n0 | n1 | n2 | n3) & 4 != 0) <==> n2 == 4) && (((n0 | n1 | n2
        | n3) & 8 != 0) <==> n3 == 8)) by (bit_vector)
        requires
            n0 == 0 || n0 == 1,
            n1 == 0 || n1 == 2,
            n2 == 0 || n2 == 4,
            n3 == 0 || n3 == 8,
    ;
}

/// A nonzero four-bit mask has at least one direction bit set.
pub proof fn lemma_mask_nonzero(mask: u8)
    requires
        mask < 16,
        mask != 0,
    ensures
        mask & 1 != 0 || mask & 2 != 0 || mask & 4 != 0 || mask & 8 != 0,
        dirs_of_mask(mask).len() >= 1,
{
    assert(mask & 1 != 0 || mask & 2 != 0 || mask & 4 != 0 || mask & 8 != 0) by (bit_vector)
        requires
            mask < 16,
            mask != 0,
    ;
}

} // verus!
