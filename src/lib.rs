//! In-memory model of a grid world for a team-based strategy game: tiles that
//! may hold one item, a registry of uniquely named teams with fixed-capacity
//! rosters, and an index of where each player stands.

pub mod constants;
mod errors;
mod item;
mod player;
mod random;
mod registry;
mod stock;
mod team;
mod tile;
mod world;

pub use errors::{Error, ErrorModel};
pub use item::{
    item_of_draw, lemma_draw_is_valid, lemma_ore_index_round_trip, ore_from_index, Item, Ore, Random,
};
pub use player::{new_player, Player, PlayerModel};
pub use team::{
    empty_slots, lemma_freed_slot_is_reused, lemma_fresh_team_fills_in_order, roster_after_adds,
    slot_view, Team, TeamModel,
};
pub use tile::Tile;
pub use registry::{has_name, names_unique, team_map};
pub use stock::{filled_count, lemma_small_grid_stays_empty};
pub use world::{
    lemma_added_name_is_taken, lemma_removed_name_is_free, on_cell, pairs_view, placement_view,
    survives, Placement, PlacementModel, World, WorldModel, MAX_REDRAWS, SPAWN,
};
