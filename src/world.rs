use crate::constants::{ITEM_DENSITY, TEAM_SIZE};
use crate::errors::{Error, ErrorModel};
use crate::item::Item;
use crate::player::{Player, PlayerModel};
use crate::random::draw_u64;
use crate::team::{empty_slots, Team, TeamModel};
use crate::registry::{
    lemma_team_map_lookup, lemma_team_map_push, lemma_team_map_remove,
    lemma_team_map_update, names_unique, team_map,
};
use crate::stock::{
    filled_count, lemma_filled_count_all_empty, lemma_filled_count_all_full,
    lemma_filled_count_fill,
};
use crate::tile::Tile;
use rand::rngs::StdRng;
use vstd::prelude::*;

verus! {

/// One entry of the position index: a team name, a slot id, and the cell.
pub type Placement = (String, usize, (usize, usize));

/// The view of an index entry.
pub type PlacementModel = (Seq<char>, usize, (usize, usize));

/// The cell where every new player is placed. No other placement policy is
/// defined yet.
pub const SPAWN: (usize, usize) = (0, 0);

/// What a world is: its size, the content of each tile in row-major order,
/// its teams by name, and the position index in insertion order.
pub struct WorldModel {
    pub x: usize,
    pub y: usize,
    pub tiles: Seq<Option<Item>>,
    pub teams: Map<Seq<char>, TeamModel>,
    pub index: Seq<PlacementModel>,
}

impl WorldModel {
    /// Slot `id` of team `name` exists and holds a player.
    pub open spec fn is_occupied(self, name: Seq<char>, id: usize) -> bool {
        self.teams.contains_key(name) && self.teams[name].is_occupied(id as int)
    }

    /// Some index entry names slot `id` of team `name`.
    pub open spec fn is_indexed(self, name: Seq<char>, id: usize) -> bool {
        exists|k: int|
            0 <= k < self.index.len() && #[trigger] self.index[k].0 == name && self.index[k].1 == id
    }

    /// The invariants of the model: one tile per cell, each team filed under
    /// its own name with a full-size roster, every index entry naming an
    /// occupied slot, and every occupied slot named by an index entry.
    pub open spec fn wf(self) -> bool {
        &&& self.tiles.len() == self.x * self.y
        &&& forall|n: Seq<char>| #[trigger]
            self.teams.contains_key(n) ==> self.teams[n].name == n && self.teams[n].wf()
        &&& forall|k: int|
            0 <= k < self.index.len() ==> self.is_occupied(
                #[trigger] self.index[k].0,
                self.index[k].1,
            )
        &&& forall|n: Seq<char>, id: usize| #[trigger]
            self.is_occupied(n, id) ==> self.is_indexed(n, id)
    }

    /// Row-major position of cell `(x, y)`.
    pub open spec fn linear(self, x: int, y: int) -> int {
        y * self.x + x
    }

    /// The players standing on `pos`, in the order in which they were placed.
    pub open spec fn players_at(self, pos: (usize, usize)) -> Seq<(Seq<char>, usize)> {
        self.index.filter(on_cell(pos)).map_values(|e: PlacementModel| (e.0, e.1))
    }

    /// The cells on which somebody stands.
    pub open spec fn is_peopled(self, pos: (usize, usize)) -> bool {
        exists|k: int| 0 <= k < self.index.len() && #[trigger] self.index[k].2 == pos
    }
}

/// Whether an index entry lies on `pos`.
pub open spec fn on_cell(pos: (usize, usize)) -> spec_fn(PlacementModel) -> bool {
    |e: PlacementModel| e.2 == pos
}

/// The view of an index entry.
pub open spec fn placement_view(e: Placement) -> PlacementModel {
    (e.0@, e.1, e.2)
}

/// A model with the same index, the same team names and the same occupied
/// slots as a well-formed one is well-formed.
proof fn lemma_wf_same_occupancy(a: WorldModel, b: WorldModel)
    requires
        a.wf(),
        b.tiles.len() == b.x * b.y,
        b.index == a.index,
        b.teams.dom() == a.teams.dom(),
        forall|n: Seq<char>| #[trigger]
            b.teams.contains_key(n) ==> b.teams[n].name == n && b.teams[n].wf(),
        forall|n: Seq<char>, id: usize| #[trigger] b.is_occupied(n, id) == a.is_occupied(n, id),
    ensures
        b.wf(),
{
    assert forall|k: int| 0 <= k < b.index.len() implies b.is_occupied(
        #[trigger] b.index[k].0,
        b.index[k].1,
    ) by {
        assert(a.is_occupied(a.index[k].0, a.index[k].1));
    }
    assert forall|n: Seq<char>, id: usize| #[trigger] b.is_occupied(n, id) implies b.is_indexed(
        n,
        id,
    ) by {
        assert(a.is_occupied(n, id));
    }
}

/// The grid, the teams and the position index of one game.
pub struct World {
    x: usize,
    y: usize,
    tiles: Vec<Tile>,
    teams: Vec<Team>,
    positions: Vec<Placement>,
}

impl View for World {
    type V = WorldModel;

    closed spec fn view(&self) -> WorldModel {
        WorldModel {
            x: self.x,
            y: self.y,
            tiles: self.tiles@.map_values(|t: Tile| t@),
            teams: team_map(self.team_seq()),
            index: self.positions@.map_values(|e: Placement| placement_view(e)),
        }
    }
}

impl World {
    /// The teams in the order in which they are stored.
    closed spec fn team_seq(&self) -> Seq<TeamModel> {
        self.teams@.map_values(|t: Team| t@)
    }

    /// The world satisfies its invariants.
    pub closed spec fn wf(&self) -> bool {
        &&& names_unique(self.team_seq())
        &&& self@.wf()
    }

    /// A well-formed world has a well-formed model: in particular the position
    /// index and the rosters agree, every index entry naming an occupied slot
    /// and every occupied slot being named by an index entry.
    pub proof fn lemma_model_wf(&self)
        requires
            self.wf(),
        ensures
            self@.wf(),
    {
    }

    /// A world of `x` by `y` empty tiles, with no team and nobody placed.
    pub fn empty(x: usize, y: usize) -> (r: World)
        requires
            x * y <= usize::MAX,
        ensures
            r.wf(),
            r@ == (WorldModel {
                x,
                y,
                tiles: Seq::new((x * y) as nat, |i: int| None),
                teams: Map::empty(),
                index: Seq::empty(),
            }),
    {
        let n = x * y;
        let mut tiles: Vec<Tile> = Vec::new();
        let mut i: usize = 0;
        while i < n
            invariant
                i <= n,
                tiles@.len() == i,
                forall|j: int| 0 <= j < i ==> (#[trigger] tiles@[j])@ is None,
            decreases n - i,
        {
            tiles.push(Tile::default());
            i = i + 1;
        }
        let r = World { x, y, tiles, teams: Vec::new(), positions: Vec::new() };
        assert(r@.tiles =~= Seq::new((x * y) as nat, |i: int| None));
        assert(r.team_seq() =~= Seq::empty());
        assert(r@.teams =~= Map::empty());
        assert(r@.index =~= Seq::empty());
        r
    }

    /// Width of the grid.
    pub fn x(&self) -> (r: usize)
        ensures
            r == self@.x,
    {
        self.x
    }

    /// Height of the grid.
    pub fn y(&self) -> (r: usize)
        ensures
            r == self@.y,
    {
        self.y
    }
}

/// Whether an index entry survives the removal of team `name` (with `id` none)
/// or of its player `id` alone.
pub open spec fn survives(name: Seq<char>, id: Option<usize>) -> spec_fn(PlacementModel) -> bool {
    |e: PlacementModel| !(e.0 == name && (id is None || e.1 == id->Some_0))
}

impl World {
    /// Position of the team called `name` in the team storage.
    fn find_team(&self, name: &String) -> (r: Option<usize>)
        requires
            self.wf(),
        ensures
            r is None <==> !self@.teams.contains_key(name@),
            r is Some ==> r->Some_0 < self.teams@.len() && self.team_seq()[r->Some_0 as int].name
                == name@ && self@.teams[name@] == self.team_seq()[r->Some_0 as int],
    {
        let mut i: usize = 0;
        while i < self.teams.len()
            invariant
                i <= self.teams@.len(),
                self.wf(),
                forall|j: int| 0 <= j < i ==> (#[trigger] self.team_seq()[j]).name != name@,
            decreases self.teams@.len() - i,
        {
            if name.eq(self.teams[i].name()) {
                proof {
                    lemma_team_map_lookup(self.team_seq(), i as int);
                }
                return Some(i);
            }
            i = i + 1;
        }
        None
    }

    /// Keeps only the index entries that `survives(name@, id)` accepts.
    fn purge_placements(&mut self, name: &String, id: Option<usize>)
        ensures
            final(self).x == old(self).x,
            final(self).y == old(self).y,
            final(self).tiles == old(self).tiles,
            final(self).teams == old(self).teams,
            final(self)@.index == old(self)@.index.filter(survives(name@, id)),
    {
        let ghost old_index = self@.index;
        let mut kept: Vec<Placement> = Vec::new();
        let mut k: usize = 0;
        while k < self.positions.len()
            invariant
                k <= self.positions@.len(),
                *self == *old(self),
                old_index == self@.index,
                kept@.map_values(|e: Placement| placement_view(e)) == old_index.take(k as int).filter(
                    survives(name@, id),
                ),
            decreases self.positions@.len() - k,
        {
            let e = &self.positions[k];
            let dropped = e.0.eq(name) && match id {
                None => true,
                Some(i) => e.1 == i,
            };
            let ghost before = kept@;
            if !dropped {
                kept.push((e.0.clone(), e.1, e.2));
                assert(kept@.map_values(|e: Placement| placement_view(e)) =~= before.map_values(
                    |e: Placement| placement_view(e),
                ).push(old_index[k as int]));
            }
            proof {
                assert(old_index.take(k + 1) =~= old_index.take(k as int).push(old_index[k as int]));
                old_index.take(k as int).lemma_filter_push(old_index[k as int], survives(name@, id));
            }
            k = k + 1;
        }
        assert(old_index.take(k as int) =~= old_index);
        self.positions = kept;
    }

    /// Registers an empty team called `name`; fails with `TeamExists` when
    /// that name is taken.
    pub fn add_team(&mut self, name: &str) -> (r: Result<(), Error>)
        requires
            old(self).wf(),
        ensures
            final(self).wf(),
            old(self)@.teams.contains_key(name@) ==> r is Err && r->Err_0@ == ErrorModel::TeamExists(
                name@,
            ) && final(self)@ == old(self)@,
            !old(self)@.teams.contains_key(name@) ==> r is Ok && final(self)@ == (WorldModel {
                teams: old(self)@.teams.insert(name@, TeamModel { name: name@, slots: empty_slots() }),
                ..old(self)@
            }),
    {
        let name = name.to_owned();
        if self.find_team(&name).is_some() {
            return Err(Error::TeamExists(name));
        }
        let team = Team::empty(name.as_str());
        proof {
            lemma_team_map_push(self.team_seq(), team@);
        }
        self.teams.push(team);
        proof {
            assert(self.team_seq() =~= old(self).team_seq().push(team@));
            let m = self@;
            let o = old(self)@;
            assert forall|n: Seq<char>, id: usize| #[trigger] m.is_occupied(n, id) implies m.is_indexed(
                n,
                id,
            ) by {
                assert(m.teams == o.teams.insert(name@, team@));
                if n == name@ {
                    assert(m.teams[n].slots[id as int] is None);
                } else {
                    assert(o.is_occupied(n, id));
                    assert(m.index == o.index);
                }
            }
        }
        Ok(())
    }

    /// Removes the team called `name` and every index entry naming it; fails
    /// with `TeamDoesntExist` when there is no such team.
    pub fn remove_team(&mut self, name: &str) -> (r: Result<(), Error>)
        requires
            old(self).wf(),
        ensures
            final(self).wf(),
            !old(self)@.teams.contains_key(name@) ==> r is Err && r->Err_0@
                == ErrorModel::TeamDoesntExist(name@) && final(self)@ == old(self)@,
            old(self)@.teams.contains_key(name@) ==> r is Ok && final(self)@ == (WorldModel {
                teams: old(self)@.teams.remove(name@),
                index: old(self)@.index.filter(survives(name@, None)),
                ..old(self)@
            }),
    {
        let name = name.to_owned();
        match self.find_team(&name) {
            None => Err(Error::TeamDoesntExist(name)),
            Some(i) => {
                proof {
                    lemma_team_map_remove(self.team_seq(), i as int);
                }
                self.teams.remove(i);
                proof {
                    assert(self.team_seq() =~= old(self).team_seq().remove(i as int));
                }
                self.purge_placements(&name, None);
                proof {
                    let m = self@;
                    let o = old(self)@;
                    assert forall|k: int| 0 <= k < m.index.len() implies m.is_occupied(
                        #[trigger] m.index[k].0,
                        m.index[k].1,
                    ) by {
                        let e = m.index[k];
                        assert(m.index.contains(e));
                        o.index.lemma_filter_contains_rev(survives(name@, None), e);
                        let j = choose|j: int| 0 <= j < o.index.len() && o.index[j] == e;
                        assert(o.is_occupied(o.index[j].0, o.index[j].1));
                    }
                    assert forall|n: Seq<char>, id: usize| #[trigger]
                        m.is_occupied(n, id) implies m.is_indexed(n, id) by {
                        assert(o.is_occupied(n, id));
                        let k = choose|k: int|
                            0 <= k < o.index.len() && #[trigger] o.index[k].0 == n && o.index[k].1
                                == id;
                        o.index.lemma_filter_contains(survives(name@, None), k);
                        let k2 = choose|k2: int| 0 <= k2 < m.index.len() && m.index[k2] == o.index[k];
                        assert(m.index[k2].0 == n);
                    }
                }
                Ok(())
            },
        }
    }
}

impl World {
    /// Places a new player in the lowest free slot of team `team_name`,
    /// records it on the spawn cell, and returns its id. Fails with
    /// `TeamDoesntExist` when there is no such team, before looking at its
    /// slots, and with `TeamIsFull` when every slot is taken.
    pub fn add_player(&mut self, team_name: &str) -> (r: Result<usize, Error>)
        requires
            old(self).wf(),
        ensures
            final(self).wf(),
            !old(self)@.teams.contains_key(team_name@) ==> r is Err && r->Err_0@
                == ErrorModel::TeamDoesntExist(team_name@),
            old(self)@.teams.contains_key(team_name@) && old(self)@.teams[team_name@].is_full()
                ==> r is Err && r->Err_0@ == ErrorModel::TeamIsFull(team_name@),
            r is Err ==> final(self)@ == old(self)@,
            r is Ok <==> old(self)@.teams.contains_key(team_name@)
                && !old(self)@.teams[team_name@].is_full(),
            r is Ok ==> old(self)@.teams[team_name@].is_lowest_free(r->Ok_0 as int) && final(self)@
                == (WorldModel {
                teams: old(self)@.teams.insert(
                    team_name@,
                    old(self)@.teams[team_name@].with_new_player(r->Ok_0 as int),
                ),
                index: old(self)@.index.push((team_name@, r->Ok_0, SPAWN)),
                ..old(self)@
            }),
    {
        let name = team_name.to_owned();
        match self.find_team(&name) {
            None => Err(Error::TeamDoesntExist(name)),
            Some(i) => {
                let ghost before = self.team_seq()[i as int];
                match self.teams[i].add_player() {
                    Err(e) => {
                        proof {
                            assert(self.team_seq() =~= old(self).team_seq());
                        }
                        Err(e)
                    },
                    Ok(id) => {
                        proof {
                            lemma_team_map_update(
                                old(self).team_seq(),
                                i as int,
                                before.with_new_player(id as int),
                            );
                            assert(self.team_seq() =~= old(self).team_seq().update(
                                i as int,
                                before.with_new_player(id as int),
                            ));
                        }
                        self.positions.push((name, id, SPAWN));
                        proof {
                            assert(self@.index =~= old(self)@.index.push((team_name@, id, SPAWN)));
                            let m = self@;
                            let o = old(self)@;
                            assert forall|n: Seq<char>, j: usize| #[trigger]
                                m.is_occupied(n, j) implies m.is_indexed(n, j) by {
                                if n == team_name@ && j == id {
                                    assert(m.index[o.index.len() as int].0 == n);
                                } else {
                                    assert(o.is_occupied(n, j));
                                    let k = choose|k: int|
                                        0 <= k < o.index.len() && #[trigger] o.index[k].0 == n
                                            && o.index[k].1 == j;
                                    assert(m.index[k] == o.index[k]);
                                }
                            }
                        }
                        Ok(id)
                    },
                }
            },
        }
    }

    /// Empties slot `id` of team `team_name` and drops the index entries that
    /// name that player. Fails with `TeamDoesntExist` when there is no such
    /// team, then with the errors of `Team::remove_player`.
    pub fn remove_player(&mut self, team_name: String, id: usize) -> (r: Result<(), Error>)
        requires
            old(self).wf(),
        ensures
            final(self).wf(),
            !old(self)@.teams.contains_key(team_name@) ==> r is Err && r->Err_0@
                == ErrorModel::TeamDoesntExist(team_name@),
            old(self)@.teams.contains_key(team_name@) && id >= TEAM_SIZE ==> r is Err && r->Err_0@
                == ErrorModel::PlayerOutOfBounds(team_name@, id),
            old(self)@.teams.contains_key(team_name@) && id < TEAM_SIZE
                && old(self)@.teams[team_name@].slots[id as int] is None ==> r is Err && r->Err_0@
                == ErrorModel::PlayerNotFound(team_name@, id),
            r is Err ==> final(self)@ == old(self)@,
            r is Ok <==> old(self)@.is_occupied(team_name@, id),
            r is Ok ==> final(self)@ == (WorldModel {
                teams: old(self)@.teams.insert(
                    team_name@,
                    old(self)@.teams[team_name@].without_player(id as int),
                ),
                index: old(self)@.index.filter(survives(team_name@, Some(id))),
                ..old(self)@
            }),
    {
        match self.find_team(&team_name) {
            None => Err(Error::TeamDoesntExist(team_name)),
            Some(i) => {
                let ghost before = self.team_seq()[i as int];
                match self.teams[i].remove_player(id) {
                    Err(e) => {
                        proof {
                            assert(self.team_seq() =~= old(self).team_seq());
                        }
                        Err(e)
                    },
                    Ok(()) => {
                        proof {
                            lemma_team_map_update(
                                old(self).team_seq(),
                                i as int,
                                before.without_player(id as int),
                            );
                            assert(self.team_seq() =~= old(self).team_seq().update(
                                i as int,
                                before.without_player(id as int),
                            ));
                        }
                        let ghost mid = self@;
                        self.purge_placements(&team_name, Some(id));
                        proof {
                            let m = self@;
                            let o = old(self)@;
                            let p = survives(team_name@, Some(id));
                            assert forall|k: int| 0 <= k < m.index.len() implies m.is_occupied(
                                #[trigger] m.index[k].0,
                                m.index[k].1,
                            ) by {
                                let e = m.index[k];
                                assert(m.index.contains(e));
                                o.index.lemma_filter_contains_rev(p, e);
                                let j = choose|j: int| 0 <= j < o.index.len() && o.index[j] == e;
                                assert(o.is_occupied(o.index[j].0, o.index[j].1));
                                o.index.lemma_filter_pred(p, k);
                            }
                            assert forall|n: Seq<char>, j: usize| #[trigger]
                                m.is_occupied(n, j) implies m.is_indexed(n, j) by {
                                assert(o.is_occupied(n, j));
                                let k = choose|k: int|
                                    0 <= k < o.index.len() && #[trigger] o.index[k].0 == n
                                        && o.index[k].1 == j;
                                o.index.lemma_filter_contains(p, k);
                                let k2 = choose|k2: int|
                                    0 <= k2 < m.index.len() && m.index[k2] == o.index[k];
                                assert(m.index[k2].0 == n);
                            }
                        }
                        Ok(())
                    },
                }
            },
        }
    }

    /// The player in slot `id` of team `team_name`. Fails exactly as
    /// `remove_player` would.
    pub fn get_player(&self, team_name: String, id: usize) -> (r: Result<&Player, Error>)
        requires
            self.wf(),
        ensures
            !self@.teams.contains_key(team_name@) ==> r is Err && r->Err_0@
                == ErrorModel::TeamDoesntExist(team_name@),
            self@.teams.contains_key(team_name@) && id >= TEAM_SIZE ==> r is Err && r->Err_0@
                == ErrorModel::PlayerOutOfBounds(team_name@, id),
            self@.teams.contains_key(team_name@) && id < TEAM_SIZE
                && self@.teams[team_name@].slots[id as int] is None ==> r is Err && r->Err_0@
                == ErrorModel::PlayerNotFound(team_name@, id),
            r is Ok <==> self@.is_occupied(team_name@, id),
            r is Ok ==> self@.teams[team_name@].slots[id as int] == Some(r->Ok_0@),
    {
        match self.find_team(&team_name) {
            None => Err(Error::TeamDoesntExist(team_name)),
            Some(i) => self.teams[i].player(id),
        }
    }

    /// The team called `name`, if there is one.
    pub fn team(&self, name: &str) -> (r: Option<&Team>)
        requires
            self.wf(),
        ensures
            r is Some <==> self@.teams.contains_key(name@),
            r is Some ==> r->Some_0@ == self@.teams[name@],
    {
        let name = name.to_owned();
        match self.find_team(&name) {
            None => None,
            Some(i) => Some(&self.teams[i]),
        }
    }

    /// Every team, in no particular order.
    pub fn teams(&self) -> (r: &Vec<Team>)
        requires
            self.wf(),
        ensures
            names_unique(r@.map_values(|t: Team| t@)),
            team_map(r@.map_values(|t: Team| t@)) == self@.teams,
    {
        &self.teams
    }
}

/// Draws that `World::generate` spends on one tile before it stops redrawing
/// and takes the lowest empty tile instead.
pub const MAX_REDRAWS: usize = 64;

impl World {
    /// Index of an empty tile: the first of up to `MAX_REDRAWS + 1` uniform
    /// draws that lands on an empty tile, else the lowest empty tile.
    fn pick_empty_tile(&self, rng: &mut StdRng) -> (r: usize)
        requires
            self.wf(),
            filled_count(self@.tiles) < self@.tiles.len(),
        ensures
            r < self@.tiles.len(),
            self@.tiles[r as int] is None,
    {
        let len = self.tiles.len();
        let mut j = (draw_u64(rng) % (len as u64)) as usize;
        let mut redraws: usize = 0;
        while self.tiles[j].has_item() && redraws < MAX_REDRAWS
            invariant
                j < len,
                len == self.tiles@.len(),
                redraws <= MAX_REDRAWS,
            decreases MAX_REDRAWS - redraws,
        {
            j = (draw_u64(rng) % (len as u64)) as usize;
            redraws = redraws + 1;
        }
        if !self.tiles[j].has_item() {
            return j;
        }
        let mut k: usize = 0;
        while k < len
            invariant
                k <= len,
                len == self.tiles@.len(),
                self@.tiles.len() == len,
                filled_count(self@.tiles) < len,
                forall|i: int| 0 <= i < k ==> #[trigger] self@.tiles[i] is Some,
            decreases len - k,
        {
            if !self.tiles[k].has_item() {
                return k;
            }
            k = k + 1;
        }
        proof {
            lemma_filled_count_all_full(self@.tiles);
        }
        0
    }

    /// A world of `x` by `y` tiles of which exactly `x * y / ITEM_DENSITY`
    /// hold a randomly drawn item, each placed on a tile that was still empty.
    pub fn generate(rng: &mut StdRng, x: usize, y: usize) -> (r: World)
        requires
            x * y <= usize::MAX,
        ensures
            r.wf(),
            r@.x == x,
            r@.y == y,
            r@.teams == Map::<Seq<char>, TeamModel>::empty(),
            r@.index == Seq::<PlacementModel>::empty(),
            filled_count(r@.tiles) == x * y / ITEM_DENSITY as int,
    {
        let mut world = World::empty(x, y);
        let n = x * y;
        let ore_count = n / ITEM_DENSITY;
        proof {
            lemma_filled_count_all_empty(world@.tiles);
        }
        let mut filled: usize = 0;
        while filled < ore_count
            invariant
                world.wf(),
                world@.x == x,
                world@.y == y,
                world@.teams == Map::<Seq<char>, TeamModel>::empty(),
                world@.index == Seq::<PlacementModel>::empty(),
                world@.tiles.len() == n,
                ore_count == n / ITEM_DENSITY,
                filled <= ore_count,
                filled_count(world@.tiles) == filled,
            decreases ore_count - filled,
        {
            let j = world.pick_empty_tile(rng);
            let ghost before = world@;
            world.tiles[j].fill_randomly(rng);
            proof {
                let item = world.tiles@[j as int]@->Some_0;
                assert(world@.tiles =~= before.tiles.update(j as int, Some(item)));
                lemma_filled_count_fill(before.tiles, j as int, item);
            }
            filled = filled + 1;
        }
        world
    }
}

/// The view of a list of players: team names as character sequences.
pub open spec fn pairs_view(v: Seq<(String, usize)>) -> Seq<(Seq<char>, usize)> {
    v.map_values(|p: (String, usize)| (p.0@, p.1))
}

/// The row-major position of a cell inside the grid is below its size.
proof fn lemma_cell_index_bound(x: usize, y: usize, w: usize, h: usize)
    requires
        x < w,
        y < h,
    ensures
        y * w + x < w * h,
{
    assert(y * w + x < w * h) by (nonlinear_arith)
        requires
            x < w,
            y < h,
    ;
}

impl World {
    /// The tile at column `x`, row `y`.
    pub fn tile_at_pos(&self, x: usize, y: usize) -> (r: &Tile)
        requires
            self.wf(),
            x < self@.x,
            y < self@.y,
        ensures
            r@ == self@.tiles[self@.linear(x as int, y as int)],
    {
        let len = self.tiles.len();
        proof {
            lemma_cell_index_bound(x, y, self.x, self.y);
            assert(len == self@.tiles.len());
        }
        &self.tiles[y * self.x + x]
    }

    /// The tile at column `x`, row `y`, for changing it.
    pub fn tile_at_pos_mut(&mut self, x: usize, y: usize) -> (r: &mut Tile)
        requires
            old(self).wf(),
            x < old(self)@.x,
            y < old(self)@.y,
        ensures
            r@ == old(self)@.tiles[old(self)@.linear(x as int, y as int)],
            final(self).wf(),
            final(self)@ == (WorldModel {
                tiles: old(self)@.tiles.update(old(self)@.linear(x as int, y as int), final(r)@),
                ..old(self)@
            }),
    {
        let len = self.tiles.len();
        proof {
            lemma_cell_index_bound(x, y, self.x, self.y);
            assert(len == self@.tiles.len());
        }
        let i = y * self.x + x;
        self.tile_at_index_mut(i)
    }

    /// The tile at row-major position `i`.
    pub fn tile_at_index(&self, i: usize) -> (r: &Tile)
        requires
            self.wf(),
            i < self@.tiles.len(),
        ensures
            r@ == self@.tiles[i as int],
    {
        &self.tiles[i]
    }

    /// The tile at row-major position `i`, for changing it.
    pub fn tile_at_index_mut(&mut self, i: usize) -> (r: &mut Tile)
        requires
            old(self).wf(),
            i < old(self)@.tiles.len(),
        ensures
            r@ == old(self)@.tiles[i as int],
            final(self).wf(),
            final(self)@ == (WorldModel {
                tiles: old(self)@.tiles.update(i as int, final(r)@),
                ..old(self)@
            }),
    {
        proof {
            assert forall|t: Tile|
                #![trigger self.tiles@.update(i as int, t)]
                self.tiles@.update(i as int, t).map_values(|t: Tile| t@) =~= self@.tiles.update(
                    i as int,
                    t@,
                ) by {}
            assert(self.team_seq() == old(self).team_seq());
            let o = self@;
            assert forall|t: Tile|
                #![trigger o.tiles.update(i as int, t@)]
                (WorldModel { tiles: o.tiles.update(i as int, t@), ..o }).wf() by {
                lemma_wf_same_occupancy(o, WorldModel { tiles: o.tiles.update(i as int, t@), ..o });
            }
        }
        &mut self.tiles[i]
    }

    /// Every tile with its cell `(x, y)`, in row-major order.
    pub fn iter_tiles(&self) -> (r: Vec<((usize, usize), Tile)>)
        requires
            self.wf(),
        ensures
            r@.len() == self@.tiles.len(),
            forall|i: int|
                0 <= i < r@.len() ==> (#[trigger] r@[i]).0 == ((i % self@.x as int) as usize, (i
                    / self@.x as int) as usize) && r@[i].1@ == self@.tiles[i],
    {
        let mut r: Vec<((usize, usize), Tile)> = Vec::new();
        let mut i: usize = 0;
        while i < self.tiles.len()
            invariant
                self.wf(),
                i <= self.tiles@.len(),
                r@.len() == i,
                forall|j: int|
                    0 <= j < i ==> (#[trigger] r@[j]).0 == ((j % self@.x as int) as usize, (j
                        / self@.x as int) as usize) && r@[j].1@ == self@.tiles[j],
            decreases self.tiles@.len() - i,
        {
            proof {
                let (w, h) = (self.x as int, self.y as int);
                assert(w != 0) by (nonlinear_arith)
                    requires
                        0 <= i < w * h,
                        0 <= h,
                ;
            }
            r.push(((i % self.x, i / self.x), self.tiles[i]));
            i = i + 1;
        }
        r
    }

    /// The players standing on cell `(x, y)` in the order in which they were
    /// placed, or `None` when nobody stands there.
    pub fn players_at_pos(&self, x: usize, y: usize) -> (r: Option<Vec<(String, usize)>>)
        requires
            self.wf(),
        ensures
            r is None <==> self@.players_at((x, y)).len() == 0,
            r is Some ==> pairs_view(r->Some_0@) == self@.players_at((x, y)),
    {
        let ghost index = self@.index;
        let ghost p = on_cell((x, y));
        let mut found: Vec<(String, usize)> = Vec::new();
        let mut k: usize = 0;
        while k < self.positions.len()
            invariant
                k <= self.positions@.len(),
                index == self@.index,
                p == on_cell((x, y)),
                pairs_view(found@) == index.take(k as int).filter(p).map_values(
                    |e: PlacementModel| (e.0, e.1),
                ),
            decreases self.positions@.len() - k,
        {
            let e = &self.positions[k];
            let ghost before = found@;
            proof {
                assert(index[k as int] == placement_view(self.positions@[k as int]));
                assert(index.take(k + 1) =~= index.take(k as int).push(index[k as int]));
                index.take(k as int).lemma_filter_push(index[k as int], p);
            }
            if e.2.0 == x && e.2.1 == y {
                found.push((e.0.clone(), e.1));
                proof {
                    assert(p(index[k as int]));
                    assert(pairs_view(found@) =~= pairs_view(before).push(
                        (index[k as int].0, index[k as int].1),
                    ));
                    assert(index.take(k + 1).filter(p).map_values(|e: PlacementModel| (e.0, e.1))
                        =~= index.take(k as int).filter(p).map_values(
                        |e: PlacementModel| (e.0, e.1),
                    ).push((index[k as int].0, index[k as int].1)));
                }
            } else {
                assert(!p(index[k as int]));
            }
            k = k + 1;
        }
        assert(index.take(k as int) =~= index);
        if found.len() == 0 {
            None
        } else {
            Some(found)
        }
    }
}

/// A cell named by some index entry has players on it.
proof fn lemma_peopled_nonempty(m: WorldModel, pos: (usize, usize))
    requires
        m.is_peopled(pos),
    ensures
        m.players_at(pos).len() > 0,
{
    let k = choose|k: int| 0 <= k < m.index.len() && #[trigger] m.index[k].2 == pos;
    m.index.lemma_filter_contains(on_cell(pos), k);
}

impl World {
    /// Every cell on which somebody stands, once, with its players in the
    /// order in which they were placed.
    pub fn iter_players(&self) -> (r: Vec<((usize, usize), Vec<(String, usize)>)>)
        requires
            self.wf(),
        ensures
            forall|a: int, b: int|
                0 <= a < r@.len() && 0 <= b < r@.len() && a != b ==> r@[a].0 != r@[b].0,
            forall|a: int|
                0 <= a < r@.len() ==> self@.is_peopled(#[trigger] r@[a].0) && pairs_view(r@[a].1@)
                    == self@.players_at(r@[a].0),
            forall|pos: (usize, usize)|
                #[trigger] self@.is_peopled(pos) ==> exists|a: int| 0 <= a < r@.len() && r@[a].0 == pos,
    {
        let ghost index = self@.index;
        let mut cells: Vec<(usize, usize)> = Vec::new();
        let mut k: usize = 0;
        while k < self.positions.len()
            invariant
                k <= self.positions@.len(),
                index == self@.index,
                forall|a: int, b: int|
                    0 <= a < cells@.len() && 0 <= b < cells@.len() && a != b ==> cells@[a]
                        != cells@[b],
                forall|a: int| 0 <= a < cells@.len() ==> self@.is_peopled(#[trigger] cells@[a]),
                forall|j: int| 0 <= j < k ==> cells@.contains(#[trigger] index[j].2),
            decreases self.positions@.len() - k,
        {
            let c = self.positions[k].2;
            proof {
                assert(index[k as int] == placement_view(self.positions@[k as int]));
                assert(index[k as int].2 == c);
            }
            let mut seen = false;
            let mut a: usize = 0;
            while a < cells.len()
                invariant
                    a <= cells@.len(),
                    seen ==> cells@.contains(c),
                    !seen ==> forall|b: int| 0 <= b < a ==> cells@[b] != c,
                decreases cells@.len() - a,
            {
                if cells[a].0 == c.0 && cells[a].1 == c.1 {
                    seen = true;
                    proof {
                        assert(cells@[a as int] == c);
                    }
                }
                a = a + 1;
            }
            if !seen {
                let ghost before = cells@;
                cells.push(c);
                proof {
                    assert(cells@[before.len() as int] == c);
                    assert forall|j: int| 0 <= j <= k implies cells@.contains(
                        #[trigger] index[j].2,
                    ) by {
                        if j < k {
                            let b = choose|b: int| 0 <= b < before.len() && before[b] == index[j].2;
                            assert(cells@[b] == index[j].2);
                        }
                    }
                }
            }
            k = k + 1;
        }
        let mut r: Vec<((usize, usize), Vec<(String, usize)>)> = Vec::new();
        let mut a: usize = 0;
        while a < cells.len()
            invariant
                self.wf(),
                a <= cells@.len(),
                r@.len() == a,
                forall|b: int| 0 <= b < a ==> (#[trigger] r@[b]).0 == cells@[b],
                forall|b: int|
                    0 <= b < a ==> pairs_view((#[trigger] r@[b]).1@) == self@.players_at(cells@[b]),
                forall|b: int| 0 <= b < cells@.len() ==> self@.is_peopled(#[trigger] cells@[b]),
            decreases cells@.len() - a,
        {
            let c = cells[a];
            proof {
                lemma_peopled_nonempty(self@, c);
            }
            match self.players_at_pos(c.0, c.1) {
                Some(list) => {
                    r.push((c, list));
                },
                None => {
                    proof {
                        assert(false);
                    }
                },
            }
            a = a + 1;
        }
        proof {
            assert forall|pos: (usize, usize)| #[trigger]
                self@.is_peopled(pos) implies exists|a: int| 0 <= a < r@.len() && r@[a].0 == pos by {
                let j = choose|j: int| 0 <= j < index.len() && #[trigger] index[j].2 == pos;
                assert(cells@.contains(index[j].2));
                let b = choose|b: int| 0 <= b < cells@.len() && cells@[b] == pos;
                assert(r@[b].0 == pos);
            }
        }
        r
    }
}

impl World {
    /// The player in slot `id` of team `team_name`, for changing it. Fails
    /// exactly as `remove_player` would.
    pub fn get_player_mut(&mut self, team_name: String, id: usize) -> (r: Result<&mut Player, Error>)
        requires
            old(self).wf(),
        ensures
            !old(self)@.teams.contains_key(team_name@) ==> r is Err && r->Err_0@
                == ErrorModel::TeamDoesntExist(team_name@),
            old(self)@.teams.contains_key(team_name@) && id >= TEAM_SIZE ==> r is Err && r->Err_0@
                == ErrorModel::PlayerOutOfBounds(team_name@, id),
            old(self)@.teams.contains_key(team_name@) && id < TEAM_SIZE
                && old(self)@.teams[team_name@].slots[id as int] is None ==> r is Err && r->Err_0@
                == ErrorModel::PlayerNotFound(team_name@, id),
            r is Err ==> final(self)@ == old(self)@,
            r is Ok <==> old(self)@.is_occupied(team_name@, id),
            r is Ok ==> old(self)@.teams[team_name@].slots[id as int] == Some(r->Ok_0@) && final(self).wf()
                && final(self)@ == (WorldModel {
                teams: old(self)@.teams.insert(
                    team_name@,
                    TeamModel {
                        slots: old(self)@.teams[team_name@].slots.update(
                            id as int,
                            Some(final(r->Ok_0)@),
                        ),
                        ..old(self)@.teams[team_name@]
                    },
                ),
                ..old(self)@
            }),
    {
        match self.find_team(&team_name) {
            None => Err(Error::TeamDoesntExist(team_name)),
            Some(i) => {
                let ghost s = self.team_seq();
                let ghost before = s[i as int];
                proof {
                    assert forall|t: TeamModel|
                        t.name == before.name implies #[trigger] team_map(s.update(i as int, t))
                        == team_map(s).insert(t.name, t) && names_unique(s.update(i as int, t)) by {
                        lemma_team_map_update(s, i as int, t);
                    }
                    assert forall|tm: Team|
                        #![trigger self.teams@.update(i as int, tm)]
                        self.teams@.update(i as int, tm).map_values(|t: Team| t@) =~= s.update(
                            i as int,
                            tm@,
                        ) by {}
                    assert(s.update(i as int, before) =~= s);
                    let o = self@;
                    if o.is_occupied(team_name@, id) {
                        assert forall|pm: PlayerModel|
                            #![trigger before.slots.update(id as int, Some(pm))]
                            (WorldModel {
                                teams: o.teams.insert(
                                    team_name@,
                                    TeamModel {
                                        slots: before.slots.update(id as int, Some(pm)),
                                        ..before
                                    },
                                ),
                                ..o
                            }).wf() by {
                            let b = WorldModel {
                                teams: o.teams.insert(
                                    team_name@,
                                    TeamModel {
                                        slots: before.slots.update(id as int, Some(pm)),
                                        ..before
                                    },
                                ),
                                ..o
                            };
                            assert(b.teams.dom() =~= o.teams.dom());
                            assert forall|n: Seq<char>, j: usize| #[trigger]
                                b.is_occupied(n, j) == o.is_occupied(n, j) by {}
                            lemma_wf_same_occupancy(o, b);
                        }
                    }
                }
                self.teams[i].player_mut(id)
            },
        }
    }
}

/// A name stays taken once its team is added: after a successful
/// `add_team(name)` the world holds `name`, so adding it again fails with
/// `TeamExists(name)`, and removing it succeeds.
pub proof fn lemma_added_name_is_taken(m: WorldModel, name: Seq<char>)
    ensures
        (WorldModel {
            teams: m.teams.insert(name, TeamModel { name, slots: empty_slots() }),
            ..m
        }).teams.contains_key(name),
{
}

/// A removed name is free again: after a successful `remove_team(name)` the
/// world no longer holds `name`, so adding it succeeds and removing it again
/// fails with `TeamDoesntExist(name)`.
pub proof fn lemma_removed_name_is_free(m: WorldModel, name: Seq<char>)
    ensures
        !(WorldModel {
            teams: m.teams.remove(name),
            index: m.index.filter(survives(name, None)),
            ..m
        }).teams.contains_key(name),
{
}

} // verus!
