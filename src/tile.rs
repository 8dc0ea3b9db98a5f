use crate::item::{item_of_draw, Item, Random};
use rand::rngs::StdRng;
use vstd::prelude::*;

verus! {

/// One cell of the grid: empty, or holding exactly one item.
#[derive(Clone, Copy, Debug, PartialEq, Eq, Structural)]
pub struct Tile {
    content: Option<Item>,
}

impl View for Tile {
    type V = Option<Item>;

    closed spec fn view(&self) -> Option<Item> {
        self.content
    }
}

impl Default for Tile {
    fn default() -> (r: Tile)
        ensures
            r@ is None,
    {
        Tile { content: None }
    }
}

impl Tile {
    /// Whether the tile holds an item.
    pub fn has_item(&self) -> (r: bool)
        ensures
            r == self@ is Some,
    {
        self.content.is_some()
    }

    /// Replaces the content, whatever it was, with a freshly drawn item.
    pub fn fill_randomly(&mut self, rng: &mut StdRng)
        ensures
            exists|d: u8| final(self)@ == Some(item_of_draw(d)),
    {
        self.content = Some(Item::random(rng));
    }

    /// The item on the tile, if any.
    pub fn content(&self) -> (r: &Option<Item>)
        ensures
            *r == self@,
    {
        &self.content
    }
}

} // verus!
