use crate::errors::Error;
use crate::item::Item;
use vstd::prelude::*;

verus! {

/// A player: a level and the quantity carried of each item kind.
pub struct Player {
    level: u8,
    inventory: Vec<(Item, usize)>,
}

/// What a player is: its level and its inventory, item kind to quantity.
pub struct PlayerModel {
    pub level: u8,
    pub inventory: Map<Item, usize>,
}

/// A player as it enters the game: level 0, nothing carried.
pub open spec fn new_player() -> PlayerModel {
    PlayerModel { level: 0, inventory: Map::empty() }
}

impl View for Player {
    type V = PlayerModel;

    closed spec fn view(&self) -> PlayerModel {
        PlayerModel {
            level: self.level,
            inventory: Map::new(
                |k: Item| exists|i: int| 0 <= i < self.inventory@.len() && self.inventory@[i].0 == k,
                |k: Item|
                    self.inventory@[choose|i: int|
                        0 <= i < self.inventory@.len() && self.inventory@[i].0 == k].1,
            ),
        }
    }
}

impl Player {
    /// A player at level 0 with an empty inventory.
    pub fn new() -> (r: Player)
        ensures
            r@ == new_player(),
    {
        let r = Player { level: 0, inventory: Vec::new() };
        assert(r@.inventory =~= Map::<Item, usize>::empty());
        r
    }

    /// Level progression: accepted, and leaves the player as it is.
    pub fn level_up(&mut self) -> (r: Result<(), Error>)
        ensures
            r is Ok,
            final(self)@ == old(self)@,
    {
        Ok(())
    }

    /// The player's level.
    pub fn level(&self) -> (r: u8)
        ensures
            r == self@.level,
    {
        self.level
    }
}

} // verus!
