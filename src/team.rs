use crate::constants::TEAM_SIZE;
use crate::errors::{Error, ErrorModel};
use crate::player::{new_player, Player, PlayerModel};
use vstd::prelude::*;

verus! {

/// A named roster of `TEAM_SIZE` player slots; a player's id is its slot.
pub struct Team {
    name: String,
    players: Vec<Option<Player>>,
}

/// What a team is: its name and, for each slot, the player in it if any.
pub struct TeamModel {
    pub name: Seq<char>,
    pub slots: Seq<Option<PlayerModel>>,
}

/// The view of one roster slot.
pub open spec fn slot_view(o: Option<Player>) -> Option<PlayerModel> {
    match o {
        Some(p) => Some(p@),
        None => None,
    }
}

/// `TEAM_SIZE` empty slots.
pub open spec fn empty_slots() -> Seq<Option<PlayerModel>> {
    Seq::new(TEAM_SIZE as nat, |i: int| None)
}

impl View for Team {
    type V = TeamModel;

    closed spec fn view(&self) -> TeamModel {
        TeamModel { name: self.name@, slots: self.players@.map_values(|o: Option<Player>| slot_view(o)) }
    }
}

impl TeamModel {
    /// The roster has exactly `TEAM_SIZE` slots.
    pub open spec fn wf(self) -> bool {
        self.slots.len() == TEAM_SIZE
    }

    /// Slot `id` exists and holds a player.
    pub open spec fn is_occupied(self, id: int) -> bool {
        0 <= id < self.slots.len() && self.slots[id] is Some
    }

    /// Every slot holds a player.
    pub open spec fn is_full(self) -> bool {
        forall|j: int| 0 <= j < self.slots.len() ==> #[trigger] self.slots[j] is Some
    }

    /// `id` is the lowest free slot.
    pub open spec fn is_lowest_free(self, id: int) -> bool {
        &&& 0 <= id < self.slots.len()
        &&& self.slots[id] is None
        &&& forall|j: int| 0 <= j < id ==> #[trigger] self.slots[j] is Some
    }

    /// The team with a new player in slot `id`.
    pub open spec fn with_new_player(self, id: int) -> TeamModel {
        TeamModel { name: self.name, slots: self.slots.update(id, Some(new_player())) }
    }

    /// The team with slot `id` emptied.
    pub open spec fn without_player(self, id: int) -> TeamModel {
        TeamModel { name: self.name, slots: self.slots.update(id, None) }
    }
}

impl Team {
    /// A team called `name` with every slot empty.
    pub fn empty(name: &str) -> (r: Team)
        ensures
            r@ == (TeamModel { name: name@, slots: empty_slots() }),
    {
        let mut players: Vec<Option<Player>> = Vec::new();
        let mut i: usize = 0;
        while i < TEAM_SIZE
            invariant
                i <= TEAM_SIZE,
                players@.len() == i,
                forall|j: int| 0 <= j < i ==> players@[j] is None,
            decreases TEAM_SIZE - i,
        {
            players.push(None);
            i = i + 1;
        }
        let r = Team { name: name.to_owned(), players };
        assert(r@.slots =~= empty_slots());
        r
    }

    /// The team's name.
    pub fn name(&self) -> (r: &String)
        ensures
            r@ == self@.name,
    {
        &self.name
    }

    /// Places a new player in the lowest free slot and returns that slot, or
    /// fails with `TeamIsFull` when every slot is taken.
    pub fn add_player(&mut self) -> (r: Result<usize, Error>)
        requires
            old(self)@.wf(),
        ensures
            match r {
                Ok(id) => {
                    &&& old(self)@.is_lowest_free(id as int)
                    &&& final(self)@ == old(self)@.with_new_player(id as int)
                },
                Err(e) => {
                    &&& old(self)@.is_full()
                    &&& e@ == ErrorModel::TeamIsFull(old(self)@.name)
                    &&& final(self)@ == old(self)@
                },
            },
    {
        let mut i: usize = 0;
        while i < TEAM_SIZE
            invariant
                i <= TEAM_SIZE,
                self@ == old(self)@,
                self.players@.len() == TEAM_SIZE,
                forall|j: int| 0 <= j < i ==> #[trigger] self@.slots[j] is Some,
            decreases TEAM_SIZE - i,
        {
            if self.players[i].is_none() {
                self.players.set(i, Some(Player::new()));
                proof {
                    assert(self@.slots =~= old(self)@.slots.update(i as int, Some(new_player())));
                }
                return Ok(i);
            }
            i = i + 1;
        }
        Err(Error::TeamIsFull(self.name.clone()))
    }

    /// Empties slot `id`. Fails with `PlayerOutOfBounds` when `id` is not a
    /// slot, and with `PlayerNotFound` when the slot is already empty.
    pub fn remove_player(&mut self, id: usize) -> (r: Result<(), Error>)
        requires
            old(self)@.wf(),
        ensures
            id >= TEAM_SIZE ==> r is Err && r->Err_0@ == ErrorModel::PlayerOutOfBounds(
                old(self)@.name,
                id,
            ),
            id < TEAM_SIZE && old(self)@.slots[id as int] is None ==> r is Err
                && r->Err_0@ == ErrorModel::PlayerNotFound(old(self)@.name, id),
            r is Err ==> final(self)@ == old(self)@,
            r is Ok <==> old(self)@.is_occupied(id as int),
            r is Ok ==> final(self)@ == old(self)@.without_player(id as int),
    {
        if id >= self.players.len() {
            return Err(Error::PlayerOutOfBounds(self.name.clone(), id));
        }
        if self.players[id].is_none() {
            return Err(Error::PlayerNotFound(self.name.clone(), id));
        }
        self.players.set(id, None);
        proof {
            assert(self@.slots =~= old(self)@.slots.update(id as int, None));
        }
        Ok(())
    }

    /// The player in slot `id`. Fails as `remove_player` does.
    pub fn player(&self, id: usize) -> (r: Result<&Player, Error>)
        requires
            self@.wf(),
        ensures
            id >= TEAM_SIZE ==> r is Err && r->Err_0@ == ErrorModel::PlayerOutOfBounds(
                self@.name,
                id,
            ),
            id < TEAM_SIZE && self@.slots[id as int] is None ==> r is Err
                && r->Err_0@ == ErrorModel::PlayerNotFound(self@.name, id),
            r is Ok <==> self@.is_occupied(id as int),
            r is Ok ==> self@.slots[id as int] == Some(r->Ok_0@),
    {
        if id >= self.players.len() {
            return Err(Error::PlayerOutOfBounds(self.name.clone(), id));
        }
        match &self.players[id] {
            Some(p) => Ok(p),
            None => Err(Error::PlayerNotFound(self.name.clone(), id)),
        }
    }
}

impl Team {
    /// The player in slot `id`, for changing it. Fails as `remove_player` does.
    pub fn player_mut(&mut self, id: usize) -> (r: Result<&mut Player, Error>)
        requires
            old(self)@.wf(),
        ensures
            id >= TEAM_SIZE ==> r is Err && r->Err_0@ == ErrorModel::PlayerOutOfBounds(
                old(self)@.name,
                id,
            ),
            id < TEAM_SIZE && old(self)@.slots[id as int] is None ==> r is Err
                && r->Err_0@ == ErrorModel::PlayerNotFound(old(self)@.name, id),
            r is Ok <==> old(self)@.is_occupied(id as int),
            r is Ok ==> old(self)@.slots[id as int] == Some(r->Ok_0@) && final(self)@ == (TeamModel {
                slots: old(self)@.slots.update(id as int, Some(final(r->Ok_0)@)),
                ..old(self)@
            }),
            r is Err ==> final(self)@ == old(self)@,
    {
        if id >= self.players.len() {
            return Err(Error::PlayerOutOfBounds(self.name.clone(), id));
        }
        if self.players[id].is_none() {
            return Err(Error::PlayerNotFound(self.name.clone(), id));
        }
        proof {
            assert forall|p: Player|
                #![trigger self.players@.update(id as int, Some(p))]
                self.players@.update(id as int, Some(p)).map_values(|o: Option<Player>| slot_view(o))
                    =~= self@.slots.update(id as int, Some(p@)) by {}
        }
        match &mut self.players[id] {
            Some(p) => Ok(p),
            None => Err(Error::PlayerNotFound(self.name.clone(), id)),
        }
    }
}

/// A roster whose first `k` slots hold fresh players and whose others are empty.
pub open spec fn roster_after_adds(name: Seq<char>, k: int) -> TeamModel {
    TeamModel {
        name,
        slots: Seq::new(TEAM_SIZE as nat, |i: int| if i < k { Some(new_player()) } else { None }),
    }
}

/// Filling a fresh team one player at a time hands out ids `0, 1, ...` in
/// ascending order: after `k` additions the lowest free slot is `k`, and one
/// more addition gives the roster after `k + 1` additions. After `TEAM_SIZE`
/// additions the team is full, so the next addition fails.
pub proof fn lemma_fresh_team_fills_in_order(name: Seq<char>, k: int)
    requires
        0 <= k <= TEAM_SIZE,
    ensures
        roster_after_adds(name, 0) == (TeamModel { name, slots: empty_slots() }),
        k < TEAM_SIZE ==> roster_after_adds(name, k).is_lowest_free(k),
        k < TEAM_SIZE ==> roster_after_adds(name, k).with_new_player(k) == roster_after_adds(
            name,
            k + 1,
        ),
        k == TEAM_SIZE ==> roster_after_adds(name, k).is_full(),
{
    assert(roster_after_adds(name, 0).slots =~= empty_slots());
    if k < TEAM_SIZE {
        assert(roster_after_adds(name, k).with_new_player(k).slots =~= roster_after_adds(
            name,
            k + 1,
        ).slots);
    }
}

/// A freed slot is reused first: when every slot below `id` is taken, removing
/// the player in slot `id` makes `id` the lowest free slot, so the next
/// addition gets `id` back.
pub proof fn lemma_freed_slot_is_reused(t: TeamModel, id: int)
    requires
        t.wf(),
        t.is_occupied(id),
        forall|j: int| 0 <= j < id ==> #[trigger] t.slots[j] is Some,
    ensures
        t.without_player(id).is_lowest_free(id),
{
    let u = t.without_player(id);
    assert forall|j: int| 0 <= j < id implies #[trigger] u.slots[j] is Some by {
        assert(u.slots[j] == t.slots[j]);
    }
}

} // verus!
