use rand::rngs::StdRng;
use rand::SeedableRng;
use zappy::constants::TEAM_SIZE;
use zappy::{Error, World};

fn filled(world: &World) -> usize {
    world.iter_tiles().iter().filter(|(_, t)| t.has_item()).count()
}

#[test]
fn generate_ten_by_ten_fills_five_tiles() {
    let mut rng = StdRng::seed_from_u64(42);
    let world = World::generate(&mut rng, 10, 10);
    assert_eq!(world.x(), 10);
    assert_eq!(world.y(), 10);
    let tiles = world.iter_tiles();
    assert_eq!(tiles.len(), 100);
    assert_eq!(filled(&world), 5);
    assert_eq!(tiles.iter().filter(|(_, t)| !t.has_item()).count(), 95);
}

#[test]
fn generate_is_reproducible_for_a_fixed_seed() {
    let a = World::generate(&mut StdRng::seed_from_u64(1234), 10, 10);
    let b = World::generate(&mut StdRng::seed_from_u64(1234), 10, 10);
    assert_eq!(a.iter_tiles(), b.iter_tiles());
}

#[test]
fn generate_small_grid_fills_nothing() {
    let mut rng = StdRng::seed_from_u64(5);
    for (x, y) in [(4, 4), (1, 19), (0, 7), (0, 0), (3, 6)] {
        let world = World::generate(&mut rng, x, y);
        assert_eq!(world.iter_tiles().len(), x * y);
        assert_eq!(filled(&world), 0);
        assert!(world.teams().is_empty());
        assert!(world.iter_players().is_empty());
    }
}

#[test]
fn generate_fills_floor_of_a_twentieth() {
    let mut rng = StdRng::seed_from_u64(8);
    for (x, y, want) in [(20, 1, 1), (5, 8, 2), (39, 1, 1), (127, 127, 806)] {
        let world = World::generate(&mut rng, x, y);
        assert_eq!(filled(&world), want);
    }
}

#[test]
fn tiles_are_addressed_row_major() {
    let mut world = World::empty(3, 2);
    let tiles = world.iter_tiles();
    let cells: Vec<(usize, usize)> = tiles.iter().map(|(c, _)| *c).collect();
    assert_eq!(cells, vec![(0, 0), (1, 0), (2, 0), (0, 1), (1, 1), (2, 1)]);
    let mut rng = StdRng::seed_from_u64(11);
    world.tile_at_pos_mut(1, 1).fill_randomly(&mut rng);
    assert!(world.tile_at_index(4).has_item());
    assert!(world.tile_at_pos(1, 1).has_item());
    assert_eq!(filled(&world), 1);
    world.tile_at_index_mut(0).fill_randomly(&mut rng);
    assert!(world.tile_at_pos(0, 0).has_item());
    assert_eq!(filled(&world), 2);
    assert!(world.iter_tiles()[4].1.has_item());
}

#[test]
fn add_team_twice_fails() {
    let mut world = World::empty(4, 4);
    assert!(world.add_team("A").is_ok());
    match world.add_team("A") {
        Err(Error::TeamExists(name)) => assert_eq!(name, "A"),
        other => panic!("unexpected {:?}", other),
    }
    assert_eq!(world.teams().len(), 1);
    assert_eq!(world.team("A").unwrap().name(), "A");
}

#[test]
fn remove_missing_team_fails() {
    let mut world = World::empty(4, 4);
    match world.remove_team("B") {
        Err(Error::TeamDoesntExist(name)) => assert_eq!(name, "B"),
        other => panic!("unexpected {:?}", other),
    }
}

#[test]
fn remove_team_frees_the_name_and_its_players() {
    let mut world = World::empty(4, 4);
    world.add_team("A").unwrap();
    world.add_team("B").unwrap();
    world.add_player("A").unwrap();
    world.add_player("B").unwrap();
    world.add_player("A").unwrap();
    assert!(world.remove_team("A").is_ok());
    assert!(world.team("A").is_none());
    assert!(world.team("B").is_some());
    assert_eq!(world.players_at_pos(0, 0), Some(vec![("B".to_string(), 0)]));
    assert!(world.add_team("A").is_ok());
    assert!(matches!(world.remove_team("C"), Err(Error::TeamDoesntExist(_))));
}

#[test]
fn players_fill_a_team_in_ascending_order() {
    let mut world = World::empty(4, 4);
    world.add_team("A").unwrap();
    for expected in 0..TEAM_SIZE {
        assert_eq!(world.add_player("A").unwrap(), expected);
    }
    match world.add_player("A") {
        Err(Error::TeamIsFull(name)) => assert_eq!(name, "A"),
        other => panic!("unexpected {:?}", other),
    }
}

#[test]
fn freed_slot_is_reused_first() {
    let mut world = World::empty(4, 4);
    world.add_team("A").unwrap();
    for _ in 0..TEAM_SIZE {
        world.add_player("A").unwrap();
    }
    assert!(world.remove_player("A".to_string(), 2).is_ok());
    assert_eq!(world.add_player("A").unwrap(), 2);
    assert!(world.add_player("A").is_err());
}

#[test]
fn remove_player_rejects_bad_ids() {
    let mut world = World::empty(4, 4);
    world.add_team("A").unwrap();
    world.add_player("A").unwrap();
    match world.remove_player("A".to_string(), TEAM_SIZE) {
        Err(Error::PlayerOutOfBounds(name, id)) => {
            assert_eq!(name, "A");
            assert_eq!(id, TEAM_SIZE);
        }
        other => panic!("unexpected {:?}", other),
    }
    match world.remove_player("A".to_string(), 1) {
        Err(Error::PlayerNotFound(name, id)) => {
            assert_eq!(name, "A");
            assert_eq!(id, 1);
        }
        other => panic!("unexpected {:?}", other),
    }
    assert!(world.remove_player("A".to_string(), 0).is_ok());
    assert!(matches!(
        world.remove_player("A".to_string(), 0),
        Err(Error::PlayerNotFound(_, 0))
    ));
}

#[test]
fn add_player_to_missing_team_fails() {
    let mut world = World::empty(4, 4);
    match world.add_player("Z") {
        Err(Error::TeamDoesntExist(name)) => assert_eq!(name, "Z"),
        other => panic!("unexpected {:?}", other),
    }
    assert!(world.players_at_pos(0, 0).is_none());
    assert!(matches!(
        world.remove_player("Z".to_string(), TEAM_SIZE + 5),
        Err(Error::TeamDoesntExist(_))
    ));
}

#[test]
fn index_follows_additions_and_removals() {
    let mut world = World::empty(4, 4);
    world.add_team("A").unwrap();
    world.add_team("B").unwrap();
    world.add_player("A").unwrap();
    world.add_player("B").unwrap();
    world.add_player("A").unwrap();
    assert_eq!(
        world.players_at_pos(0, 0),
        Some(vec![
            ("A".to_string(), 0),
            ("B".to_string(), 0),
            ("A".to_string(), 1)
        ])
    );
    assert!(world.players_at_pos(1, 0).is_none());
    world.remove_player("A".to_string(), 0).unwrap();
    assert_eq!(
        world.players_at_pos(0, 0),
        Some(vec![("B".to_string(), 0), ("A".to_string(), 1)])
    );
    let groups = world.iter_players();
    assert_eq!(groups.len(), 1);
    assert_eq!(groups[0].0, (0, 0));
    assert_eq!(groups[0].1, vec![("B".to_string(), 0), ("A".to_string(), 1)]);
    world.remove_player("B".to_string(), 0).unwrap();
    world.remove_player("A".to_string(), 1).unwrap();
    assert!(world.players_at_pos(0, 0).is_none());
    assert!(world.iter_players().is_empty());
}

#[test]
fn get_player_fails_like_remove_player() {
    let mut world = World::empty(2, 2);
    world.add_team("A").unwrap();
    world.add_player("A").unwrap();
    assert_eq!(world.get_player("A".to_string(), 0).unwrap().level(), 0);
    assert!(matches!(
        world.get_player("B".to_string(), 0),
        Err(Error::TeamDoesntExist(_))
    ));
    assert!(matches!(
        world.get_player("A".to_string(), TEAM_SIZE),
        Err(Error::PlayerOutOfBounds(_, _))
    ));
    assert!(matches!(
        world.get_player("A".to_string(), 1),
        Err(Error::PlayerNotFound(_, 1))
    ));
    let player = world.get_player_mut("A".to_string(), 0).unwrap();
    assert!(player.level_up().is_ok());
    assert!(matches!(
        world.get_player_mut("A".to_string(), 3),
        Err(Error::PlayerNotFound(_, 3))
    ));
}

#[test]
fn empty_world_has_no_items_teams_or_players() {
    let world = World::empty(5, 3);
    assert_eq!(world.x(), 5);
    assert_eq!(world.y(), 3);
    assert_eq!(world.iter_tiles().len(), 15);
    assert_eq!(filled(&world), 0);
    assert!(world.teams().is_empty());
    assert!(world.iter_players().is_empty());
}
