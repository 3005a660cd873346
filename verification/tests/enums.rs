use wfc::enums::{tile_from_rgb, tile_of_index, tile_to_rgb, Direction, Tile, TileSet};

#[test]
fn test_minify_letters() {
    assert_eq!(Tile::Red.minify(), 'R');
    assert_eq!(Tile::Green.minify(), 'G');
    assert_eq!(Tile::Blue.minify(), 'B');
}

#[test]
fn test_offsets() {
    assert_eq!(Direction::Up.offset(), (0, -1));
    assert_eq!(Direction::Down.offset(), (0, 1));
    assert_eq!(Direction::Left.offset(), (-1, 0));
    assert_eq!(Direction::Right.offset(), (1, 0));
}

#[test]
fn test_tile_rgb_round_trip() {
    for t in [Tile::Red, Tile::Green, Tile::Blue] {
        let (r, g, b) = tile_to_rgb(t);
        assert_eq!(tile_from_rgb(r, g, b), Some(t));
    }
    assert_eq!(tile_to_rgb(Tile::Red), (255, 0, 0));
    assert_eq!(tile_to_rgb(Tile::Green), (0, 255, 0));
    assert_eq!(tile_to_rgb(Tile::Blue), (0, 0, 255));
}

#[test]
fn test_tile_from_rgb_rejects_unknown_colors() {
    assert_eq!(tile_from_rgb(7, 7, 7), None);
    assert_eq!(tile_from_rgb(255, 255, 0), None);
    assert_eq!(tile_from_rgb(254, 0, 0), None);
    assert_eq!(tile_from_rgb(0, 0, 0), None);
}

#[test]
fn test_tile_of_index_cycles() {
    assert_eq!(tile_of_index(0), Tile::Red);
    assert_eq!(tile_of_index(1), Tile::Green);
    assert_eq!(tile_of_index(2), Tile::Blue);
    assert_eq!(tile_of_index(3), Tile::Red);
    assert_eq!(tile_of_index(700), Tile::Green);
}

#[test]
fn test_tileset_basics() {
    let empty = TileSet::empty();
    assert!(empty.is_empty());
    assert_eq!(empty.len(), 0);

    let rg = TileSet::from_all(vec![Tile::Red, Tile::Green]);
    assert_eq!(rg.len(), 2);
    assert!(rg.contains(Tile::Red));
    assert!(rg.contains(Tile::Green));
    assert!(!rg.contains(Tile::Blue));
    assert!(!rg.is_empty());

    let rgb = rg.with(Tile::Blue);
    assert_eq!(rgb.len(), 3);
    assert!(rgb.contains(Tile::Blue));

    let gb = rgb.remove(Tile::Red);
    assert_eq!(gb.len(), 2);
    assert!(!gb.contains(Tile::Red));
    assert!(gb.contains(Tile::Green));
    assert!(gb.contains(Tile::Blue));
}

#[test]
fn test_tileset_with_all_dedups() {
    let s = TileSet::empty().with_all(vec![Tile::Red, Tile::Red, Tile::Blue]);
    assert_eq!(s.len(), 2);
    assert!(s.contains(Tile::Red));
    assert!(!s.contains(Tile::Green));
    assert!(s.contains(Tile::Blue));
}

#[test]
fn test_tileset_members_order() {
    let s = TileSet::from_all(vec![Tile::Blue, Tile::Red]);
    assert_eq!(s.members(), vec![Tile::Red, Tile::Blue]);
    assert_eq!(TileSet::empty().members(), Vec::<Tile>::new());
    let all = TileSet::from_all(vec![Tile::Green, Tile::Blue, Tile::Red]);
    assert_eq!(all.members(), vec![Tile::Red, Tile::Green, Tile::Blue]);
}
