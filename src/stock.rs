use crate::constants::ITEM_DENSITY;
use crate::item::Item;
use vstd::prelude::*;

verus! {

/// Number of tiles that hold an item.
pub open spec fn filled_count(tiles: Seq<Option<Item>>) -> nat
    decreases tiles.len(),
{
    if tiles.len() == 0 {
        0
    } else {
        filled_count(tiles.drop_last()) + if tiles.last() is Some {
            1nat
        } else {
            0nat
        }
    }
}

/// A grid of empty tiles has no filled tile.
pub(crate) proof fn lemma_filled_count_all_empty(tiles: Seq<Option<Item>>)
    requires
        forall|i: int| 0 <= i < tiles.len() ==> #[trigger] tiles[i] is None,
    ensures
        filled_count(tiles) == 0,
    decreases tiles.len(),
{
    if tiles.len() > 0 {
        lemma_filled_count_all_empty(tiles.drop_last());
    }
}

/// A grid whose tiles all hold an item has every tile filled.
pub(crate) proof fn lemma_filled_count_all_full(tiles: Seq<Option<Item>>)
    requires
        forall|i: int| 0 <= i < tiles.len() ==> #[trigger] tiles[i] is Some,
    ensures
        filled_count(tiles) == tiles.len(),
    decreases tiles.len(),
{
    if tiles.len() > 0 {
        lemma_filled_count_all_full(tiles.drop_last());
    }
}

/// Filling an empty tile adds one filled tile.
pub(crate) proof fn lemma_filled_count_fill(tiles: Seq<Option<Item>>, i: int, item: Item)
    requires
        0 <= i < tiles.len(),
        tiles[i] is None,
    ensures
        filled_count(tiles.update(i, Some(item))) == filled_count(tiles) + 1,
    decreases tiles.len(),
{
    let t2 = tiles.update(i, Some(item));
    if i == tiles.len() - 1 {
        assert(t2.drop_last() =~= tiles.drop_last());
    } else {
        assert(t2.drop_last() =~= tiles.drop_last().update(i, Some(item)));
        lemma_filled_count_fill(tiles.drop_last(), i, item);
    }
}

/// No filled tile means every tile is empty.
proof fn lemma_filled_count_zero(tiles: Seq<Option<Item>>)
    requires
        filled_count(tiles) == 0,
    ensures
        forall|i: int| 0 <= i < tiles.len() ==> #[trigger] tiles[i] is None,
    decreases tiles.len(),
{
    if tiles.len() > 0 {
        lemma_filled_count_zero(tiles.drop_last());
        assert forall|i: int| 0 <= i < tiles.len() implies #[trigger] tiles[i] is None by {
            if i < tiles.len() - 1 {
                assert(tiles[i] == tiles.drop_last()[i]);
            }
        }
    }
}

/// A grid of fewer than `ITEM_DENSITY` cells receives no item: generation
/// fills `x * y / ITEM_DENSITY` tiles, which is then zero, so every tile stays
/// empty.
pub proof fn lemma_small_grid_stays_empty(tiles: Seq<Option<Item>>, x: usize, y: usize)
    requires
        x * y < ITEM_DENSITY,
        filled_count(tiles) == x * y / ITEM_DENSITY as int,
    ensures
        forall|i: int| 0 <= i < tiles.len() ==> #[trigger] tiles[i] is None,
{
    lemma_filled_count_zero(tiles);
}

} // verus!
