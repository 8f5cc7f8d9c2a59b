//! The state a maze tile is shown in while the path search runs.
use vstd::prelude::*;

verus! {

/// How a tile is shown during the search.
#[derive(Clone, Copy, Debug, PartialEq, Eq, Structural)]
pub enum MazeTileState {
    Normal,
    Touched,
    Committed,
    Active,
}

/// Position of a tile state in declaration order.
pub open spec fn tile_state_index(s: MazeTileState) -> nat {
    match s {
        MazeTileState::Normal => 0,
        MazeTileState::Touched => 1,
        MazeTileState::Committed => 2,
        MazeTileState::Active => 3,
    }
}

/// A state's flag is set in its own bits and in the flag of no other state.
pub proof fn law_flags_distinct(a: MazeTileState, b: MazeTileState)
    ensures
        ((1u32 << tile_state_index(a)) & (1u32 << tile_state_index(b)) != 0) == (a == b),
{
    let ia = tile_state_index(a) as u32;
    let ib = tile_state_index(b) as u32;
    assert(ia < 4 && ib < 4);
    assert(forall|p: u32, q: u32| p < 4 && q < 4 ==> (((1u32 << p) & (1u32 << q) != 0) == (p == q)))
        by (bit_vector);
    assert((tile_state_index(a) == tile_state_index(b)) == (a == b));
}

impl Default for MazeTileState {
    fn default() -> (s: Self)
        ensures
            s == MazeTileState::Normal,
    {
        MazeTileState::Normal
    }
}

impl MazeTileState {
    /// The bit of this state in a set of states: 1 shifted left by its position.
    pub fn to_godot_flag(&self) -> (f: u32)
        ensures
            f == (1u32 << tile_state_index(*self)),
            f == (match *self {
                MazeTileState::Normal => 1u32,
                MazeTileState::Touched => 2u32,
                MazeTileState::Committed => 4u32,
                MazeTileState::Active => 8u32,
            }),
    {
        let shift: u32 = match self {
            MazeTileState::Normal => 0,
            MazeTileState::Touched => 1,
            MazeTileState::Committed => 2,
            MazeTileState::Active => 3,
        };
        let f = 1u32 << shift;
        assert(1u32 << 0u32 == 1u32) by (bit_vector);
        assert(1u32 << 1u32 == 2u32) by (bit_vector);
        assert(1u32 << 2u32 == 4u32) by (bit_vector);
        assert(1u32 << 3u32 == 8u32) by (bit_vector);
        f
    }

    /// Whether this state's bit is set in `bits`.
    pub fn is_set_flag_in_bits(&self, bits: u32) -> (b: bool)
        ensures
            b == ((1u32 << tile_state_index(*self)) & bits != 0),
    {
        let masked = self.to_godot_flag() & bits;
        masked != 0
    }
}

} // verus!
