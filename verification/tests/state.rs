use wfc::enums::{Direction, Tile, TileSet};
use wfc::rules::{Rule, RuleSet};
use wfc::state::{
    contains_invalid_tiles, generate_image, get_image_from_possible_vals, get_lowest_entropy_tile,
    propagate_to_fixpoint, State,
};

fn set_of(tiles: Vec<Tile>) -> TileSet {
    TileSet::from_all(tiles)
}

fn uniform_rules(tiles: Vec<Tile>) -> RuleSet {
    let mut rs = RuleSet::new();
    for t in tiles {
        rs.insert(Rule::new(t, t, Direction::Up));
        rs.insert(Rule::new(t, t, Direction::Down));
        rs.insert(Rule::new(t, t, Direction::Left));
        rs.insert(Rule::new(t, t, Direction::Right));
    }
    rs
}

#[test]
fn test_state_new_fills_alphabet() {
    let rg = set_of(vec![Tile::Red, Tile::Green]);
    let state = State::new(3, 2, &rg);
    assert_eq!(state.width, 3);
    assert_eq!(state.height, 2);
    assert_eq!(state.curr_file_index, 0);
    for x in 0..3 {
        for y in 0..2 {
            assert_eq!(state.get(x, y), rg);
        }
    }
}

#[test]
fn test_possible_vals_set_get_size() {
    let rg = set_of(vec![Tile::Red, Tile::Green]);
    let mut state = State::new(2, 2, &rg);
    let blue = set_of(vec![Tile::Blue]);
    state.possible_vals.set(1, 0, blue);
    assert_eq!(state.possible_vals.get(1, 0), blue);
    assert_eq!(state.possible_vals.get(0, 0), rg);
    assert_eq!(state.possible_vals.size(), Some((2, 2)));
    let empty_state = State::new(0, 5, &rg);
    assert_eq!(empty_state.possible_vals.size(), None);
}

#[test]
fn test_total_entropy_counts_possibilities() {
    let rg = set_of(vec![Tile::Red, Tile::Green]);
    let mut state = State::new(2, 2, &rg);
    state.possible_vals.set(0, 0, set_of(vec![Tile::Blue]));
    state
        .possible_vals
        .set(1, 1, set_of(vec![Tile::Red, Tile::Green, Tile::Blue]));
    // Cell sizes are 1, 2, 2, 3.
    assert_eq!(state.get_total_entropy(), 8);
}

#[test]
fn test_with_possibilities_replaces_wave() {
    let rg = set_of(vec![Tile::Red, Tile::Green]);
    let state = State::new(2, 2, &rg);
    let mut pv = state.possible_vals.duplicate();
    let red = set_of(vec![Tile::Red]);
    pv.set(0, 1, red);
    let swapped = state.with_possibilities(pv);
    assert_eq!(swapped.get(0, 1), red);
    assert_eq!(swapped.get(0, 0), rg);
    assert_eq!(state.get(0, 1), rg);
}

#[test]
fn test_contains_invalid_tiles_all_ok() {
    let rg = set_of(vec![Tile::Red, Tile::Green]);
    let state = State::new(2, 2, &rg);
    assert!(!contains_invalid_tiles(&state.possible_vals));
}

#[test]
fn test_contains_invalid_tiles_one_empty() {
    let rg = set_of(vec![Tile::Red, Tile::Green]);
    let mut state = State::new(2, 2, &rg);
    state.possible_vals.set(0, 0, TileSet::empty());
    assert!(contains_invalid_tiles(&state.possible_vals));
}

#[test]
fn test_contains_invalid_tiles_all_empty() {
    let state = State::new(2, 2, &TileSet::empty());
    assert!(contains_invalid_tiles(&state.possible_vals));
}

#[test]
fn test_lowest_entropy_prefers_smallest_above_one() {
    let all = set_of(vec![Tile::Red, Tile::Green, Tile::Blue]);
    let mut state = State::new(2, 2, &all);
    state.possible_vals.set(0, 0, set_of(vec![Tile::Blue]));
    state
        .possible_vals
        .set(0, 1, set_of(vec![Tile::Blue, Tile::Green]));
    // Sizes are 1, 2, 3, 3: the single collapsed cell is skipped and the
    // unique size-two cell must win every draw.
    let res = get_lowest_entropy_tile(&state.possible_vals);
    assert_eq!(res, Some((0, 1)));
}

#[test]
fn test_lowest_entropy_never_picks_collapsed() {
    let rg = set_of(vec![Tile::Red, Tile::Green]);
    let mut state = State::new(2, 2, &rg);
    state.possible_vals.set(0, 0, set_of(vec![Tile::Blue]));
    for _ in 0..200 {
        let res = get_lowest_entropy_tile(&state.possible_vals);
        assert_ne!(res, Some((0, 0)));
        assert!(res.is_some());
    }
}

#[test]
fn test_lowest_entropy_none_when_all_collapsed() {
    let red = set_of(vec![Tile::Red]);
    let state = State::new(2, 2, &red);
    assert_eq!(get_lowest_entropy_tile(&state.possible_vals), None);
}

#[test]
fn test_decode_fully_collapsed() {
    let mut state = State::new(2, 2, &set_of(vec![Tile::Red]));
    state.possible_vals.set(1, 0, set_of(vec![Tile::Green]));
    state.possible_vals.set(0, 1, set_of(vec![Tile::Blue]));
    let img = get_image_from_possible_vals(&state).expect("wave is fully collapsed");
    assert_eq!(img.width, 2);
    assert_eq!(img.height, 2);
    assert_eq!(img.get(0, 0), Tile::Red);
    assert_eq!(img.get(1, 0), Tile::Green);
    assert_eq!(img.get(0, 1), Tile::Blue);
    assert_eq!(img.get(1, 1), Tile::Red);
}

#[test]
fn test_decode_rejects_undetermined_cell() {
    let mut state = State::new(2, 2, &set_of(vec![Tile::Red]));
    state
        .possible_vals
        .set(1, 1, set_of(vec![Tile::Red, Tile::Green]));
    assert!(get_image_from_possible_vals(&state).is_none());
}

#[test]
fn test_decode_rejects_empty_cell() {
    let mut state = State::new(2, 2, &set_of(vec![Tile::Red]));
    state.possible_vals.set(1, 1, TileSet::empty());
    assert!(get_image_from_possible_vals(&state).is_none());
}

#[test]
fn test_propagation_needs_repeated_passes() {
    // A collapsed top cell narrows a one-wide column one row per pass;
    // running to the fixed point narrows all of it.
    let rg = set_of(vec![Tile::Red, Tile::Green]);
    let mut state = State::new(1, 3, &rg);
    let red = set_of(vec![Tile::Red]);
    state.possible_vals.set(0, 0, red);
    let mut rules = RuleSet::new();
    for t in [Tile::Red, Tile::Green] {
        rules.insert(Rule::new(t, t, Direction::Up));
        rules.insert(Rule::new(t, t, Direction::Down));
    }
    let fixed = propagate_to_fixpoint(state, &rules).expect("column is satisfiable");
    assert_eq!(fixed.get(0, 0), red);
    assert_eq!(fixed.get(0, 1), red);
    assert_eq!(fixed.get(0, 2), red);
}

#[test]
fn test_propagation_reports_contradiction() {
    let rb = set_of(vec![Tile::Red, Tile::Blue]);
    let state = State::new(1, 2, &rb);
    let mut rules = RuleSet::new();
    rules.insert(Rule::new(Tile::Red, Tile::Blue, Direction::Up));
    assert!(propagate_to_fixpoint(state, &rules).is_none());
}

#[test]
fn test_generate_uniform_red_converges() {
    // Scenario: a rule set with only Red next to Red in all directions
    // must converge to an all-Red grid at any size.
    let rules = uniform_rules(vec![Tile::Red]);
    for (w, h) in [(1u32, 1u32), (3, 3), (4, 2)] {
        let img = generate_image(w, h, &rules).expect("all-Red output expected");
        assert_eq!(img.width, w as usize);
        assert_eq!(img.height, h as usize);
        for x in 0..w as usize {
            for y in 0..h as usize {
                assert_eq!(img.get(x, y), Tile::Red);
            }
        }
    }
}

#[test]
fn test_generate_unsupported_label_is_unsatisfiable() {
    // Scenario: Blue appears in the alphabet but no rule claims it in any
    // direction, and Red has no rules sideways or downward either, so every
    // collapse attempt propagates into a contradiction and the run reports
    // no result.
    let mut rules = RuleSet::new();
    rules.insert(Rule::new(Tile::Red, Tile::Blue, Direction::Up));
    assert!(generate_image(2, 2, &rules).is_none());
}

#[test]
fn test_generate_empty_grid_succeeds() {
    let rules = uniform_rules(vec![Tile::Red]);
    let img = generate_image(0, 3, &rules).expect("an empty grid decodes trivially");
    assert_eq!(img.width, 0);
    assert_eq!(img.height, 3);
}

#[test]
fn test_generate_empty_rules_yields_nothing() {
    let rules = RuleSet::new();
    assert!(generate_image(2, 2, &rules).is_none());
}

#[test]
fn test_generate_two_labels_locally_consistent() {
    // With uniform same-label rules for Red and Green, every run must end
    // with each cell collapsed to a label of the alphabet.
    let rules = uniform_rules(vec![Tile::Red, Tile::Green]);
    let img = generate_image(3, 3, &rules).expect("uniform rules are satisfiable");
    for x in 0..3 {
        for y in 0..3 {
            let t = img.get(x, y);
            assert!(t == Tile::Red || t == Tile::Green);
        }
    }
}
