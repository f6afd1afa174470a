use wave_collapse::tile::Tile;
use wave_collapse::tile::TileType;

#[test]
fn tile_type_new_fields() {
    let t = TileType::new([1, 2, 3], 0b1010);
    assert_eq!(t.color, (1, 2, 3));
    assert_eq!(t.neighbors, 0b1010);
}

#[test]
fn tile_new_full_wave() {
    assert_eq!(Tile::new(1).wave, 0b1);
    assert_eq!(Tile::new(3).wave, 0b111);
    assert_eq!(Tile::new(15).wave, 0b111_1111_1111_1111);
    assert_eq!(Tile::new(128).wave, u128::MAX);
    assert!(!Tile::new(4).collapsed);
}

#[test]
fn collapse_choice_picks_in_index_order() {
    // wave 0b1101: set bits are {0, 2, 3}
    let mut t = Tile { wave: 0b1101, collapsed: false };
    assert_eq!(t.collapse_choice(0), 0);
    assert_eq!(t.wave, 0b0001);
    assert!(t.collapsed);

    let mut t = Tile { wave: 0b1101, collapsed: false };
    assert_eq!(t.collapse_choice(1), 2);
    assert_eq!(t.wave, 0b0100);

    let mut t = Tile { wave: 0b1101, collapsed: false };
    assert_eq!(t.collapse_choice(2), 3);
    assert_eq!(t.wave, 0b1000);
}

#[test]
fn collapse_idempotent_on_singleton() {
    let mut rng = <rand::rngs::StdRng as rand::SeedableRng>::seed_from_u64(7);
    let mut t = Tile { wave: 0b100000, collapsed: false };
    let first = t.collapse(&mut rng);
    assert_eq!(first, 5);
    assert_eq!(t.wave, 0b100000);
    assert!(t.collapsed);
    // re-collapsing a collapsed cell returns the same index and changes nothing
    let again = t.collapse(&mut rng);
    assert_eq!(again, 5);
    assert_eq!(t.wave, 0b100000);
}

#[test]
fn allowed_neighbors_unions_masks_of_set_bits() {
    let types = vec![
        TileType::new([0, 0, 0], 0b001),
        TileType::new([0, 0, 0], 0b010),
        TileType::new([0, 0, 0], 0b110),
    ];
    let t = Tile { wave: 0b011, collapsed: false };
    assert_eq!(t.allowed_neighbors(&types), 0b011);
    let t = Tile { wave: 0b100, collapsed: false };
    assert_eq!(t.allowed_neighbors(&types), 0b110);
    let t = Tile { wave: 0b111, collapsed: false };
    assert_eq!(t.allowed_neighbors(&types), 0b111);
}
