use crate::constants::{ITEM_KINDS, ORE_KINDS};
use crate::errors::Error;
use crate::random::draw_u8;
use rand::rngs::StdRng;
use vstd::prelude::*;

verus! {

/// The six mineral kinds, in their fixed order.
#[derive(Clone, Copy, Debug, PartialEq, Eq, Structural, Hash)]
pub enum Ore {
    Linemate,
    Deraumere,
    Sibur,
    Mendiane,
    Phiras,
    Thystame,
}

/// A resource lying on a tile or carried by a player.
#[derive(Clone, Copy, Debug, PartialEq, Eq, Structural, Hash)]
pub enum Item {
    Nourriture,
    Ore(Ore),
}

impl Ore {
    /// Position of the kind in the fixed order.
    pub open spec fn index(self) -> u8 {
        match self {
            Ore::Linemate => 0,
            Ore::Deraumere => 1,
            Ore::Sibur => 2,
            Ore::Mendiane => 3,
            Ore::Phiras => 4,
            Ore::Thystame => 5,
        }
    }
}

/// The kind at position `n` of the fixed order, or `InvalidOreNumber` past its end.
pub open spec fn ore_from_index(n: u8) -> Result<Ore, Error> {
    if n == 0 {
        Ok(Ore::Linemate)
    } else if n == 1 {
        Ok(Ore::Deraumere)
    } else if n == 2 {
        Ok(Ore::Sibur)
    } else if n == 3 {
        Ok(Ore::Mendiane)
    } else if n == 4 {
        Ok(Ore::Phiras)
    } else if n == 5 {
        Ok(Ore::Thystame)
    } else {
        Err(Error::InvalidOreNumber)
    }
}

/// The item that a drawn byte stands for: its residue modulo the number of
/// item kinds, where 0 is food and `k > 0` is the ore at position `k - 1`.
pub open spec fn item_of_draw(d: u8) -> Item {
    let k = d % ITEM_KINDS;
    if k == 0 {
        Item::Nourriture
    } else {
        Item::Ore(ore_from_index((k - 1) as u8)->Ok_0)
    }
}

/// Conversion from an index accepts exactly the indices of the ore kinds, gives
/// each of them its own kind, and is undone by `Ore::index`.
pub proof fn lemma_ore_index_round_trip(n: u8, m: u8)
    ensures
        n < ORE_KINDS <==> ore_from_index(n) is Ok,
        n >= ORE_KINDS ==> ore_from_index(n) == Err::<Ore, Error>(Error::InvalidOreNumber),
        n < ORE_KINDS ==> ore_from_index(n)->Ok_0.index() == n,
        n < ORE_KINDS && m < ORE_KINDS && n != m ==> ore_from_index(n) != ore_from_index(m),
{
}

/// Every byte drawn from a generator stands for a valid item: food, or an ore
/// whose index the conversion accepts.
pub proof fn lemma_draw_is_valid(d: u8)
    ensures
        d % ITEM_KINDS == 0 ==> item_of_draw(d) == Item::Nourriture,
        d % ITEM_KINDS != 0 ==> {
            &&& ore_from_index((d % ITEM_KINDS - 1) as u8) is Ok
            &&& item_of_draw(d) == Item::Ore(ore_from_index((d % ITEM_KINDS - 1) as u8)->Ok_0)
        },
{
}

impl TryFrom<u8> for Ore {
    type Error = Error;

    fn try_from(value: u8) -> (r: Result<Ore, Error>)
        ensures
            r == ore_from_index(value),
    {
        match value {
            0 => Ok(Ore::Linemate),
            1 => Ok(Ore::Deraumere),
            2 => Ok(Ore::Sibur),
            3 => Ok(Ore::Mendiane),
            4 => Ok(Ore::Phiras),
            5 => Ok(Ore::Thystame),
            _ => Err(Error::InvalidOreNumber),
        }
    }
}

impl vstd::std_specs::convert::TryFromSpecImpl<u8> for Ore {
    open spec fn obeys_try_from_spec() -> bool {
        true
    }

    open spec fn try_from_spec(v: u8) -> Result<Ore, Error> {
        ore_from_index(v)
    }
}

impl Item {
    /// The item that the byte `d` stands for (see `item_of_draw`).
    pub fn from_draw(d: u8) -> (r: Item)
        ensures
            r == item_of_draw(d),
    {
        let k = d % ITEM_KINDS;
        if k == 0 {
            Item::Nourriture
        } else {
            Item::Ore(Ore::try_from(k - 1).unwrap())
        }
    }
}

/// A value that can be drawn from a random source.
pub trait Random: Sized {
    /// Draws a value from `rng`.
    fn random(rng: &mut StdRng) -> Self;
}

impl Random for Item {
    /// Draws one byte from `rng` and returns the item that it stands for.
    fn random(rng: &mut StdRng) -> (r: Item)
        ensures
            exists|d: u8| r == item_of_draw(d),
    {
        let d = draw_u8(rng);
        Item::from_draw(d)
    }
}

} // verus!
