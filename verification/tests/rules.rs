use wfc::enums::{Direction, Tile, TileSet};
use wfc::grid::TileGrid;
use wfc::rules::{
    apply_rules, extract_rules, get_image_adjacent_pixels, get_possibilities_adjacent_pixels, Rule,
    RuleSet,
};
use wfc::state::State;

fn rule_set(rules: Vec<Rule>) -> RuleSet {
    let mut rs = RuleSet::new();
    for r in rules {
        rs.insert(r);
    }
    rs
}

fn uniform_rules(tiles: Vec<Tile>) -> RuleSet {
    let mut rs = RuleSet::new();
    for t in tiles {
        rs.insert(Rule::new(t, t, Direction::Up));
        rs.insert(Rule::new(t, t, Direction::Down));
        rs.insert(Rule::new(t, t, Direction::Left));
        rs.insert(Rule::new(t, t, Direction::Right));
    }
    rs
}

#[test]
fn test_extract_rules() {
    let mut img = TileGrid::new(2, 2, Tile::Red);
    img.set(0, 0, Tile::Red);
    img.set(1, 0, Tile::Blue);
    img.set(0, 1, Tile::Red);
    img.set(1, 1, Tile::Red);

    let rules = extract_rules(&img);
    let expected = vec![
        Rule::new(Tile::Red, Tile::Red, Direction::Down),
        Rule::new(Tile::Red, Tile::Red, Direction::Up),
        Rule::new(Tile::Red, Tile::Red, Direction::Right),
        Rule::new(Tile::Red, Tile::Red, Direction::Left),
        Rule::new(Tile::Red, Tile::Blue, Direction::Left),
        Rule::new(Tile::Blue, Tile::Red, Direction::Right),
        Rule::new(Tile::Red, Tile::Blue, Direction::Down),
        Rule::new(Tile::Blue, Tile::Red, Direction::Up),
    ];

    assert_eq!(rules.len(), expected.len());
    for r in &expected {
        assert!(rules.contains(r));
    }
}

#[test]
fn test_extract_rules_single_cell_has_none() {
    let img = TileGrid::new(1, 1, Tile::Green);
    let rules = extract_rules(&img);
    assert_eq!(rules.len(), 0);
}

#[test]
fn test_extract_rules_column_pair() {
    let mut img = TileGrid::new(1, 2, Tile::Red);
    img.set(0, 1, Tile::Green);
    let rules = extract_rules(&img);
    assert_eq!(rules.len(), 2);
    assert!(rules.contains(&Rule::new(Tile::Red, Tile::Green, Direction::Up)));
    assert!(rules.contains(&Rule::new(Tile::Green, Tile::Red, Direction::Down)));
}

#[test]
fn test_rule_set_dedup() {
    let mut rs = RuleSet::new();
    let r = Rule::new(Tile::Red, Tile::Blue, Direction::Up);
    rs.insert(r);
    rs.insert(r);
    rs.insert(Rule::new(Tile::Red, Tile::Blue, Direction::Down));
    assert_eq!(rs.len(), 2);
    assert!(rs.contains(&r));
    assert!(!rs.contains(&Rule::new(Tile::Blue, Tile::Red, Direction::Up)));
}

#[test]
fn test_alphabet_collects_both_sides() {
    let rs = rule_set(vec![Rule::new(Tile::Red, Tile::Blue, Direction::Up)]);
    let a = rs.alphabet();
    assert!(a.contains(Tile::Red));
    assert!(a.contains(Tile::Blue));
    assert!(!a.contains(Tile::Green));
    assert!(RuleSet::new().alphabet().is_empty());
}

#[test]
fn test_image_adjacent_pixels_corner_and_center() {
    let mut img = TileGrid::new(2, 2, Tile::Red);
    img.set(1, 0, Tile::Blue);
    img.set(0, 1, Tile::Green);
    let (up, down, left, right) = get_image_adjacent_pixels(&img, 0, 0);
    assert_eq!(up, None);
    assert_eq!(down, Some(Tile::Green));
    assert_eq!(left, None);
    assert_eq!(right, Some(Tile::Blue));
    let (up, down, left, right) = get_image_adjacent_pixels(&img, 1, 1);
    assert_eq!(up, Some(Tile::Blue));
    assert_eq!(down, None);
    assert_eq!(left, Some(Tile::Green));
    assert_eq!(right, None);
}

#[test]
fn test_possibilities_adjacent_pixels_single_cell() {
    let rg = TileSet::from_all(vec![Tile::Red, Tile::Green]);
    let state = State::new(1, 1, &rg);
    let (curr, up, down, left, right) =
        get_possibilities_adjacent_pixels(&state.possible_vals, 0, 0);
    assert_eq!(curr, Some(rg));
    assert_eq!(up, None);
    assert_eq!(down, None);
    assert_eq!(left, None);
    assert_eq!(right, None);
}

#[test]
fn test_possibilities_adjacent_pixels_column() {
    let rg = TileSet::from_all(vec![Tile::Red, Tile::Green]);
    let state = State::new(1, 2, &rg);
    let (curr, up, down, left, right) =
        get_possibilities_adjacent_pixels(&state.possible_vals, 0, 0);
    assert_eq!(curr, Some(rg));
    assert_eq!(up, None);
    assert_eq!(down, Some(rg));
    assert_eq!(left, None);
    assert_eq!(right, None);

    let (curr, up, down, left, right) =
        get_possibilities_adjacent_pixels(&state.possible_vals, 0, 1);
    assert_eq!(curr, Some(rg));
    assert_eq!(up, Some(rg));
    assert_eq!(down, None);
    assert_eq!(left, None);
    assert_eq!(right, None);
}

#[test]
fn test_possibilities_adjacent_pixels_zero_width() {
    let state = State::new(0, 1, &TileSet::empty());
    let (curr, up, down, left, right) =
        get_possibilities_adjacent_pixels(&state.possible_vals, 0, 0);
    assert_eq!(curr, None);
    assert_eq!(up, None);
    assert_eq!(down, None);
    assert_eq!(left, None);
    assert_eq!(right, None);
}

#[test]
fn test_apply_rules_uniform_keeps_everything() {
    let rg = TileSet::from_all(vec![Tile::Red, Tile::Green]);
    let state = State::new(2, 2, &rg);
    let rules = uniform_rules(vec![Tile::Red, Tile::Green]);
    let next = apply_rules(&state, &rules).expect("no contradiction expected");
    for x in 0..2 {
        for y in 0..2 {
            assert_eq!(next.get(x, y), rg);
        }
    }
}

#[test]
fn test_apply_rules_collapsed_neighbor_prunes() {
    let rg = TileSet::from_all(vec![Tile::Red, Tile::Green]);
    let mut state = State::new(2, 2, &rg);
    let red = TileSet::empty().with(Tile::Red);
    state.possible_vals.set(0, 0, red);
    let rules = uniform_rules(vec![Tile::Red, Tile::Green]);

    let next = apply_rules(&state, &rules).expect("no contradiction expected");
    // The collapsed cell is untouched; its direct neighbors lose Green
    // because Green's rules demand Green at (0, 0); the diagonal cell saw
    // only the input wave's wide sets and keeps both labels.
    assert_eq!(next.get(0, 0), red);
    assert_eq!(next.get(0, 1), red);
    assert_eq!(next.get(1, 0), red);
    assert_eq!(next.get(1, 1), rg);

    let after = apply_rules(&next, &rules).expect("no contradiction expected");
    assert_eq!(after.get(1, 1), red);
}

#[test]
fn test_apply_rules_missing_direction_is_contradiction() {
    // The only rule speaks of Up, so any label at a cell with a Down, Left
    // or Right neighbor finds no rule claiming it there and dies.
    let rb = TileSet::from_all(vec![Tile::Red, Tile::Blue]);
    let state = State::new(2, 2, &rb);
    let rules = rule_set(vec![Rule::new(Tile::Red, Tile::Blue, Direction::Up)]);
    assert!(apply_rules(&state, &rules).is_none());
}

#[test]
fn test_apply_rules_preserves_collapsed_even_when_unsupported() {
    // A collapsed cell is never re-filtered: only a snapshot reset may
    // change it.
    let rb = TileSet::from_all(vec![Tile::Red, Tile::Blue]);
    let mut state = State::new(1, 1, &rb);
    let blue = TileSet::empty().with(Tile::Blue);
    state.possible_vals.set(0, 0, blue);
    let rules = rule_set(vec![Rule::new(Tile::Red, Tile::Red, Direction::Up)]);
    let next = apply_rules(&state, &rules).expect("a lone collapsed cell survives");
    assert_eq!(next.get(0, 0), blue);
}
