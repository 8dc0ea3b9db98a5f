use vstd::prelude::*;

verus! {

/// Number of player slots in every team.
pub const TEAM_SIZE: usize = 6;

/// Number of distinct ore kinds.
pub const ORE_KINDS: u8 = 6;

/// Number of distinct item kinds: food, then each ore.
pub const ITEM_KINDS: u8 = ORE_KINDS + 1;

/// One tile in this many receives an item when a world is generated.
pub const ITEM_DENSITY: usize = 20;

} // verus!
