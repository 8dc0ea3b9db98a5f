use rand::rngs::StdRng;
use rand::SeedableRng;
use zappy::constants::{ITEM_KINDS, ORE_KINDS};
use zappy::{Error, Item, Ore, Player, Random, Tile};

const ORES: [Ore; 6] = [
    Ore::Linemate,
    Ore::Deraumere,
    Ore::Sibur,
    Ore::Mendiane,
    Ore::Phiras,
    Ore::Thystame,
];

#[test]
fn ore_conversion_accepts_each_index_once() {
    for n in 0..ORE_KINDS {
        let ore = Ore::try_from(n).expect("index below the number of kinds");
        assert_eq!(ore, ORES[n as usize]);
        for m in 0..ORE_KINDS {
            if m != n {
                assert_ne!(Ore::try_from(m).unwrap(), ore);
            }
        }
    }
}

#[test]
fn ore_conversion_rejects_indices_past_the_kinds() {
    for n in ORE_KINDS..=u8::MAX {
        assert!(matches!(Ore::try_from(n), Err(Error::InvalidOreNumber)));
    }
}

#[test]
fn draws_map_to_items_by_residue() {
    assert_eq!(ITEM_KINDS, 7);
    assert_eq!(Item::from_draw(0), Item::Nourriture);
    assert_eq!(Item::from_draw(1), Item::Ore(Ore::Linemate));
    assert_eq!(Item::from_draw(6), Item::Ore(Ore::Thystame));
    assert_eq!(Item::from_draw(7), Item::Nourriture);
    assert_eq!(Item::from_draw(13), Item::Ore(Ore::Thystame));
    assert_eq!(Item::from_draw(255), Item::Ore(Ore::Sibur));
}

#[test]
fn random_items_from_a_seeded_source_are_valid() {
    let mut rng = StdRng::seed_from_u64(7);
    let mut seen_food = false;
    let mut seen_ore = [false; 6];
    for _ in 0..2000 {
        match Item::random(&mut rng) {
            Item::Nourriture => seen_food = true,
            Item::Ore(ore) => {
                let i = ORES.iter().position(|o| *o == ore).expect("a known kind");
                assert_eq!(Ore::try_from(i as u8).unwrap(), ore);
                seen_ore[i] = true;
            }
        }
    }
    assert!(seen_food);
    assert!(seen_ore.iter().all(|s| *s));
}

#[test]
fn random_items_repeat_for_a_fixed_seed() {
    let mut a = StdRng::seed_from_u64(99);
    let mut b = StdRng::seed_from_u64(99);
    for _ in 0..100 {
        assert_eq!(Item::random(&mut a), Item::random(&mut b));
    }
}

#[test]
fn tile_starts_empty_and_fills() {
    let mut tile = Tile::default();
    assert!(!tile.has_item());
    assert_eq!(*tile.content(), None);
    let mut rng = StdRng::seed_from_u64(3);
    tile.fill_randomly(&mut rng);
    assert!(tile.has_item());
    assert!(tile.content().is_some());
}

#[test]
fn new_player_is_level_zero() {
    let mut p = Player::new();
    assert_eq!(p.level(), 0);
    assert!(p.level_up().is_ok());
    assert_eq!(p.level(), 0);
}
