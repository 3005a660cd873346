//! Adjacency rules: extraction from a sample grid and membership queries.

use vstd::prelude::*;

use crate::enums::{Direction, Tile, TileSet};
use crate::grid::TileGrid;
use crate::prop::{cell_at, dir_supported, nb_in_bounds, prop_cell, prop_wave, tile_allowed};
use crate::prop::lemma_wave_eq_by_cells;
use crate::state::{contains_invalid_tiles, has_empty_cell, PossibleVals, State};

verus! {

/// One directed adjacency fact: `curr_tile` may stand at `direction` of
/// `adj_tile`, because the sample showed that pair at least once.
#[derive(Clone, Copy, Debug, PartialEq, Eq, Hash, Structural)]
pub struct Rule {
    pub curr_tile: Tile,
    pub adj_tile: Tile,
    pub direction: Direction,
}

impl Rule {
    pub fn new(curr_tile: Tile, adj_tile: Tile, direction: Direction) -> (r: Rule)
        ensures
            r == (Rule { curr_tile, adj_tile, direction }),
    {
        Rule { curr_tile, adj_tile, direction }
    }
}

/// The rule `r` is witnessed at cell `(x, y)` of `g`: the cell bears
/// `r.adj_tile` and its in-bounds neighbor at `r.direction` bears
/// `r.curr_tile`.
pub open spec fn observed_at(g: TileGrid, r: Rule, x: int, y: int) -> bool {
    &&& g.in_bounds(x, y)
    &&& g.in_bounds(x + r.direction.spec_dx(), y + r.direction.spec_dy())
    &&& g.spec_cell(x + r.direction.spec_dx(), y + r.direction.spec_dy()) == r.curr_tile
    &&& g.spec_cell(x, y) == r.adj_tile
}

/// The rule `r` is witnessed somewhere in the sample `g`.
pub open spec fn observed(g: TileGrid, r: Rule) -> bool {
    exists|x: int, y: int| observed_at(g, r, x, y)
}

/// The rule `r` is witnessed at a cell that a column-major scan of `g`
/// passes before reaching cell `(x, y)`.
pub open spec fn observed_before(g: TileGrid, r: Rule, x: int, y: int) -> bool {
    exists|xi: int, yi: int| (xi < x || (xi == x && yi < y)) && observed_at(g, r, xi, yi)
}

/// A deduplicated set of adjacency rules, immutable once extracted.
pub struct RuleSet {
    pub rules: Vec<Rule>,
}

impl RuleSet {
    pub open spec fn wf(self) -> bool {
        self.rules@.no_duplicates()
    }

    pub open spec fn spec_contains(self, r: Rule) -> bool {
        self.rules@.contains(r)
    }

    /// A rule set with no rules.
    pub fn new() -> (s: RuleSet)
        ensures
            s.wf(),
            s.rules@.len() == 0,
            forall|r: Rule| !s.spec_contains(r),
    {
        RuleSet { rules: Vec::new() }
    }

    /// How many distinct rules the set holds.
    pub fn len(&self) -> (n: usize)
        ensures
            n == self.rules@.len(),
    {
        self.rules.len()
    }

    /// Whether the set holds `r`.
    pub fn contains(&self, r: &Rule) -> (b: bool)
        ensures
            b == self.spec_contains(*r),
    {
        let mut i: usize = 0;
        while i < self.rules.len()
            invariant
                i <= self.rules@.len(),
                forall|j: int| 0 <= j < i ==> self.rules@[j] != *r,
            decreases self.rules@.len() - i,
        {
            if self.rules[i] == *r {
                return true;
            }
            i = i + 1;
        }
        false
    }

    /// Adds `r` unless it is already present; the set stays deduplicated.
    pub fn insert(&mut self, r: Rule)
        requires
            old(self).wf(),
        ensures
            final(self).wf(),
            forall|r2: Rule| #[trigger]
                final(self).spec_contains(r2) == (old(self).spec_contains(r2) || r2 == r),
    {
        if !self.contains(&r) {
            self.rules.push(r);
            proof {
                assert forall|r2: Rule| #[trigger]
                    self.spec_contains(r2) == (old(self).spec_contains(r2) || r2 == r) by {
                    if old(self).spec_contains(r2) {
                        let j = choose|j: int|
                            0 <= j < old(self).rules@.len() && old(self).rules@[j] == r2;
                        assert(self.rules@[j] == r2);
                    }
                    if r2 == r {
                        assert(self.rules@[self.rules@.len() - 1] == r);
                    }
                    if self.spec_contains(r2) {
                        let j = choose|j: int| 0 <= j < self.rules@.len() && self.rules@[j] == r2;
                        if j < self.rules@.len() - 1 {
                            assert(old(self).rules@[j] == r2);
                        }
                    }
                }
            }
        }
    }
}

/// The label `t` appears somewhere in the rules, as subject or as neighbor.
pub open spec fn in_alphabet(rules: Seq<Rule>, t: Tile) -> bool {
    exists|k: int|
        0 <= k < rules.len() && ((#[trigger] rules[k]).curr_tile == t || rules[k].adj_tile == t)
}

impl RuleSet {
    /// The union of all labels the rules mention: the tile alphabet a
    /// collapse run starts from.
    pub fn alphabet(&self) -> (a: TileSet)
        ensures
            forall|t: Tile| #[trigger] a.spec_contains(t) <==> in_alphabet(self.rules@, t),
    {
        let rs = &self.rules;
        let mut a = TileSet::empty();
        let mut k: usize = 0;
        while k < rs.len()
            invariant
                rs == &self.rules,
                k <= rs@.len(),
                forall|t: Tile| #[trigger]
                    a.spec_contains(t) <==> exists|j: int|
                        0 <= j < k && ((#[trigger] rs@[j]).curr_tile == t || rs@[j].adj_tile == t),
            decreases rs@.len() - k,
        {
            let ghost a0 = a;
            let r = rs[k];
            a = a.with(r.curr_tile).with(r.adj_tile);
            proof {
                assert forall|t: Tile| #[trigger]
                    a.spec_contains(t) <==> exists|j: int|
                        0 <= j < k + 1 && ((#[trigger] rs@[j]).curr_tile == t || rs@[j].adj_tile
                            == t) by {
                    if a.spec_contains(t) {
                        if a0.spec_contains(t) {
                            let j = choose|j: int|
                                0 <= j < k && ((#[trigger] rs@[j]).curr_tile == t
                                    || rs@[j].adj_tile == t);
                            assert(0 <= j < k + 1 && ((rs@[j]).curr_tile == t || rs@[j].adj_tile
                                == t));
                        } else {
                            assert(rs@[k as int].curr_tile == t || rs@[k as int].adj_tile == t);
                        }
                    } else {
                        if exists|j: int|
                            0 <= j < k + 1 && ((#[trigger] rs@[j]).curr_tile == t
                                || rs@[j].adj_tile == t) {
                            let j = choose|j: int|
                                0 <= j < k + 1 && ((#[trigger] rs@[j]).curr_tile == t
                                    || rs@[j].adj_tile == t);
                            if j < k {
                                assert(a0.spec_contains(t));
                            }
                            assert(false);
                        }
                    }
                }
            }
            k = k + 1;
        }
        a
    }
}

/// Scans the sample and emits every adjacency fact it shows: for every cell
/// and every in-bounds neighbor, the rule naming the neighbor's label, the
/// cell's label and the direction from the cell to the neighbor. The result
/// holds a rule if and only if the sample witnesses it.
pub fn extract_rules(sample: &TileGrid) -> (rs: RuleSet)
    requires
        sample.wf(),
    ensures
        rs.wf(),
        forall|r: Rule| #[trigger] rs.spec_contains(r) <==> observed(*sample, r),
{
    let g = sample;
    let mut rs = RuleSet::new();
    let w = g.width;
    let h = g.height;
    proof {
        lemma_observed_start(*g);
    }
    let mut x: usize = 0;
    while x < w
        invariant
            g.wf(),
            w == g.width,
            h == g.height,
            x <= w,
            rs.wf(),
            forall|r: Rule| #[trigger]
                rs.spec_contains(r) <==> observed_before(*g, r, x as int, 0),
        decreases w - x,
    {
        let mut y: usize = 0;
        while y < h
            invariant
                g.wf(),
                w == g.width,
                h == g.height,
                x < w,
                y <= h,
                rs.wf(),
                forall|r: Rule| #[trigger]
                    rs.spec_contains(r) <==> observed_before(*g, r, x as int, y as int),
            decreases h - y,
        {
            let cur = g.get(x, y);
            let ghost rs0 = rs;
            let up_in = y > 0;
            let down_in = y < h - 1;
            let left_in = x > 0;
            let right_in = x + 1 < w;
            let ru = Rule::new(
                if up_in {
                    g.get(x, y - 1)
                } else {
                    cur
                },
                cur,
                Direction::Up,
            );
            let rd = Rule::new(
                if down_in {
                    g.get(x, y + 1)
                } else {
                    cur
                },
                cur,
                Direction::Down,
            );
            let rl = Rule::new(
                if left_in {
                    g.get(x - 1, y)
                } else {
                    cur
                },
                cur,
                Direction::Left,
            );
            let rr = Rule::new(
                if right_in {
                    g.get(x + 1, y)
                } else {
                    cur
                },
                cur,
                Direction::Right,
            );
            if up_in {
                rs.insert(ru);
            }
            if down_in {
                rs.insert(rd);
            }
            if left_in {
                rs.insert(rl);
            }
            if right_in {
                rs.insert(rr);
            }
            proof {
                assert forall|r: Rule| #[trigger]
                    observed_at(*g, r, x as int, y as int) <==> ((up_in && r == ru) || (down_in
                        && r == rd) || (left_in && r == rl) || (right_in && r == rr)) by {
                    match r.direction {
                        Direction::Up => {},
                        Direction::Down => {},
                        Direction::Left => {},
                        Direction::Right => {},
                    }
                }
                assert forall|r: Rule| #[trigger]
                    rs.spec_contains(r) <==> (rs0.spec_contains(r) || observed_at(
                        *g,
                        r,
                        x as int,
                        y as int,
                    )) by {}
                assert forall|r: Rule| #[trigger]
                    rs.spec_contains(r) <==> observed_before(*g, r, x as int, y as int + 1) by {
                    lemma_observed_step(*g, r, x as int, y as int);
                }
            }
            y = y + 1;
        }
        proof {
            assert forall|r: Rule| #[trigger]
                rs.spec_contains(r) <==> observed_before(*g, r, x as int + 1, 0) by {
                lemma_observed_row(*g, r, x as int);
            }
        }
        x = x + 1;
    }
    proof {
        assert forall|r: Rule| #[trigger] rs.spec_contains(r) <==> observed(*g, r) by {
            lemma_observed_all(*g, r);
        }
    }
    rs
}

/// Before the scan reaches cell `(0, 0)` no rule has been witnessed.
proof fn lemma_observed_start(g: TileGrid)
    ensures
        forall|r: Rule| !observed_before(g, r, 0, 0),
{
    assert forall|r: Rule| !observed_before(g, r, 0, 0) by {
        if observed_before(g, r, 0, 0) {
            let (xi, yi) = choose|xi: int, yi: int|
                (xi < 0 || (xi == 0 && yi < 0)) && observed_at(g, r, xi, yi);
            assert(g.in_bounds(xi, yi));
        }
    }
}

/// Passing one more cell adds exactly the rules witnessed at that cell.
proof fn lemma_observed_step(g: TileGrid, r: Rule, x: int, y: int)
    ensures
        observed_before(g, r, x, y + 1) <==> (observed_before(g, r, x, y) || observed_at(
            g,
            r,
            x,
            y,
        )),
{
    if observed_before(g, r, x, y + 1) {
        let (xi, yi) = choose|xi: int, yi: int|
            (xi < x || (xi == x && yi < y + 1)) && observed_at(g, r, xi, yi);
        if xi < x || (xi == x && yi < y) {
            assert(observed_before(g, r, x, y));
        } else {
            assert(xi == x && yi == y);
        }
    }
    if observed_before(g, r, x, y) {
        let (xi, yi) = choose|xi: int, yi: int|
            (xi < x || (xi == x && yi < y)) && observed_at(g, r, xi, yi);
        assert((xi < x || (xi == x && yi < y + 1)) && observed_at(g, r, xi, yi));
    }
    if observed_at(g, r, x, y) {
        assert((x < x || (x == x && y < y + 1)) && observed_at(g, r, x, y));
    }
}

/// Finishing a column is the same as standing at the top of the next one.
proof fn lemma_observed_row(g: TileGrid, r: Rule, x: int)
    ensures
        observed_before(g, r, x, g.height as int) <==> observed_before(g, r, x + 1, 0),
{
    if observed_before(g, r, x, g.height as int) {
        let (xi, yi) = choose|xi: int, yi: int|
            (xi < x || (xi == x && yi < g.height)) && observed_at(g, r, xi, yi);
        assert((xi < x + 1 || (xi == x + 1 && yi < 0)) && observed_at(g, r, xi, yi));
    }
    if observed_before(g, r, x + 1, 0) {
        let (xi, yi) = choose|xi: int, yi: int|
            (xi < x + 1 || (xi == x + 1 && yi < 0)) && observed_at(g, r, xi, yi);
        assert(g.in_bounds(xi, yi));
        assert((xi < x || (xi == x && yi < g.height)) && observed_at(g, r, xi, yi));
    }
}

/// A scan past the last column has witnessed every rule the sample shows.
proof fn lemma_observed_all(g: TileGrid, r: Rule)
    ensures
        observed_before(g, r, g.width as int, 0) <==> observed(g, r),
{
    if observed_before(g, r, g.width as int, 0) {
        let (xi, yi) = choose|xi: int, yi: int|
            (xi < g.width || (xi == g.width && yi < 0)) && observed_at(g, r, xi, yi);
        assert(observed_at(g, r, xi, yi));
    }
    if observed(g, r) {
        let (xi, yi) = choose|xi: int, yi: int| observed_at(g, r, xi, yi);
        assert(g.in_bounds(xi, yi));
        assert((xi < g.width || (xi == g.width && yi < 0)) && observed_at(g, r, xi, yi));
    }
}

/// The labels of the four in-bounds neighbors of cell `(x, y)` of the
/// sample, in the order up, down, left, right; `None` where the neighbor
/// would fall outside the grid.
pub fn get_image_adjacent_pixels(g: &TileGrid, x: usize, y: usize) -> (r: (
    Option<Tile>,
    Option<Tile>,
    Option<Tile>,
    Option<Tile>,
))
    requires
        g.wf(),
        g.in_bounds(x as int, y as int),
    ensures
        r.0 == if y > 0 {
            Some(g.spec_cell(x as int, y as int - 1))
        } else {
            None::<Tile>
        },
        r.1 == if y + 1 < g.height {
            Some(g.spec_cell(x as int, y as int + 1))
        } else {
            None::<Tile>
        },
        r.2 == if x > 0 {
            Some(g.spec_cell(x as int - 1, y as int))
        } else {
            None::<Tile>
        },
        r.3 == if x + 1 < g.width {
            Some(g.spec_cell(x as int + 1, y as int))
        } else {
            None::<Tile>
        },
{
    let up = if y > 0 {
        Some(g.get(x, y - 1))
    } else {
        None
    };
    let down = if y + 1 < g.height {
        Some(g.get(x, y + 1))
    } else {
        None
    };
    let left = if x > 0 {
        Some(g.get(x - 1, y))
    } else {
        None
    };
    let right = if x + 1 < g.width {
        Some(g.get(x + 1, y))
    } else {
        None
    };
    (up, down, left, right)
}

/// The possibility set at cell `(x, y)` of the wave and those of its four
/// in-bounds neighbors, in the order current, up, down, left, right; all
/// `None` for a wave of zero width.
pub fn get_possibilities_adjacent_pixels(possible_vals: &PossibleVals, x: usize, y: usize) -> (r: (
    Option<TileSet>,
    Option<TileSet>,
    Option<TileSet>,
    Option<TileSet>,
    Option<TileSet>,
))
    requires
        possible_vals.wf(),
        possible_vals.width == 0 || possible_vals.in_bounds(x as int, y as int),
    ensures
        r.0 == if possible_vals.width == 0 {
            None::<TileSet>
        } else {
            Some(possible_vals.spec_cell(x as int, y as int))
        },
        r.1 == if possible_vals.width > 0 && y > 0 {
            Some(possible_vals.spec_cell(x as int, y as int - 1))
        } else {
            None::<TileSet>
        },
        r.2 == if possible_vals.width > 0 && y + 1 < possible_vals.height {
            Some(possible_vals.spec_cell(x as int, y as int + 1))
        } else {
            None::<TileSet>
        },
        r.3 == if possible_vals.width > 0 && x > 0 {
            Some(possible_vals.spec_cell(x as int - 1, y as int))
        } else {
            None::<TileSet>
        },
        r.4 == if possible_vals.width > 0 && x + 1 < possible_vals.width {
            Some(possible_vals.spec_cell(x as int + 1, y as int))
        } else {
            None::<TileSet>
        },
{
    if possible_vals.width == 0 {
        return (None, None, None, None, None);
    }
    let curr = possible_vals.get(x, y);
    let up = if y > 0 {
        Some(possible_vals.get(x, y - 1))
    } else {
        None
    };
    let down = if y + 1 < possible_vals.height {
        Some(possible_vals.get(x, y + 1))
    } else {
        None
    };
    let left = if x > 0 {
        Some(possible_vals.get(x - 1, y))
    } else {
        None
    };
    let right = if x + 1 < possible_vals.width {
        Some(possible_vals.get(x + 1, y))
    } else {
        None
    };
    (Some(curr), up, down, left, right)
}

/// Whether the label `t` at cell `(x, y)` is supported toward direction
/// `d`, whose in-bounds neighbor is cell `(nx, ny)`.
fn dir_ok(
    pv: &PossibleVals,
    rules: &RuleSet,
    x: usize,
    y: usize,
    t: Tile,
    d: Direction,
    nx: usize,
    ny: usize,
) -> (b: bool)
    requires
        pv.wf(),
        pv.in_bounds(nx as int, ny as int),
        nx as int == x as int + d.spec_dx(),
        ny as int == y as int + d.spec_dy(),
    ensures
        b == dir_supported(pv.inner@, pv.height as int, rules.rules@, x as int, y as int, t, d),
{
    let nbset = pv.get(nx, ny);
    proof {
        assert(nbset == cell_at(
            pv.inner@,
            pv.height as int,
            x as int + d.spec_dx(),
            y as int + d.spec_dy(),
        ));
    }
    let mut any = false;
    let ghost mut wit: int = 0;
    let mut k: usize = 0;
    while k < rules.rules.len()
        invariant
            nbset == cell_at(
                pv.inner@,
                pv.height as int,
                x as int + d.spec_dx(),
                y as int + d.spec_dy(),
            ),
            k <= rules.rules@.len(),
            any ==> 0 <= wit < k && rules.rules@[wit].curr_tile == t && rules.rules@[wit].direction
                == d,
            !any ==> forall|j: int|
                0 <= j < k ==> !((#[trigger] rules.rules@[j]).curr_tile == t
                    && rules.rules@[j].direction == d),
            forall|j: int|
                0 <= j < k && (#[trigger] rules.rules@[j]).curr_tile == t
                    && rules.rules@[j].direction == d ==> nbset.spec_contains(
                    rules.rules@[j].adj_tile,
                ),
        decreases rules.rules@.len() - k,
    {
        let r = rules.rules[k];
        if r.curr_tile == t && r.direction == d {
            any = true;
            proof {
                wit = k as int;
            }
            if !nbset.contains(r.adj_tile) {
                proof {
                    if dir_supported(
                        pv.inner@,
                        pv.height as int,
                        rules.rules@,
                        x as int,
                        y as int,
                        t,
                        d,
                    ) {
                        assert(rules.rules@[k as int].curr_tile == t && rules.rules@[
                            k as int].direction == d);
                        assert(nbset.spec_contains(rules.rules@[k as int].adj_tile));
                    }
                }
                return false;
            }
        }
        k = k + 1;
    }
    proof {
        if any {
            assert(rules.rules@[wit].curr_tile == t && rules.rules@[wit].direction == d);
            assert(dir_supported(
                pv.inner@,
                pv.height as int,
                rules.rules@,
                x as int,
                y as int,
                t,
                d,
            ));
        } else {
            if dir_supported(pv.inner@, pv.height as int, rules.rules@, x as int, y as int, t, d) {
                let j = choose|j: int|
                    0 <= j < rules.rules@.len() && (#[trigger] rules.rules@[j]).curr_tile == t
                        && rules.rules@[j].direction == d;
                assert(false);
            }
        }
    }
    any
}

/// Whether the label `t` survives at cell `(x, y)`: supported toward every
/// direction whose neighbor lies inside the wave.
fn tile_ok(pv: &PossibleVals, rules: &RuleSet, x: usize, y: usize, t: Tile) -> (b: bool)
    requires
        pv.wf(),
        pv.in_bounds(x as int, y as int),
    ensures
        b == tile_allowed(
            pv.inner@,
            pv.width as int,
            pv.height as int,
            rules.rules@,
            x as int,
            y as int,
            t,
        ),
{
    let ghost w = pv.width as int;
    let ghost h = pv.height as int;
    if y > 0 {
        if !dir_ok(pv, rules, x, y, t, Direction::Up, x, y - 1) {
            proof {
                assert(nb_in_bounds(w, h, x as int, y as int, Direction::Up));
            }
            return false;
        }
    }
    if y + 1 < pv.height {
        if !dir_ok(pv, rules, x, y, t, Direction::Down, x, y + 1) {
            proof {
                assert(nb_in_bounds(w, h, x as int, y as int, Direction::Down));
            }
            return false;
        }
    }
    if x > 0 {
        if !dir_ok(pv, rules, x, y, t, Direction::Left, x - 1, y) {
            proof {
                assert(nb_in_bounds(w, h, x as int, y as int, Direction::Left));
            }
            return false;
        }
    }
    if x + 1 < pv.width {
        if !dir_ok(pv, rules, x, y, t, Direction::Right, x + 1, y) {
            proof {
                assert(nb_in_bounds(w, h, x as int, y as int, Direction::Right));
            }
            return false;
        }
    }
    proof {
        assert forall|d: Direction| nb_in_bounds(w, h, x as int, y as int, d) implies dir_supported(
            pv.inner@,
            h,
            rules.rules@,
            x as int,
            y as int,
            t,
            d,
        ) by {
            match d {
                Direction::Up => {},
                Direction::Down => {},
                Direction::Left => {},
                Direction::Right => {},
            }
        }
    }
    true
}

/// One propagation pass: a pure arc-consistency filter. Collapsed cells are
/// kept; at every other cell exactly the labels supported by every
/// applicable rule against the input wave survive. Returns the filtered
/// wave, or `None` if and only if the filtered wave holds an empty cell.
pub fn apply_rules(curr_state: &State, rules: &RuleSet) -> (res: Option<State>)
    requires
        curr_state.wf(),
    ensures
        res is Some <==> !has_empty_cell(
            prop_wave(
                curr_state.possible_vals.inner@,
                curr_state.width as int,
                curr_state.height as int,
                rules.rules@,
            ),
        ),
        res matches Some(s2) ==> s2.wf() && s2.width == curr_state.width && s2.height
            == curr_state.height && s2.curr_file_index == curr_state.curr_file_index
            && s2.possible_vals.inner@ == prop_wave(
            curr_state.possible_vals.inner@,
            curr_state.width as int,
            curr_state.height as int,
            rules.rules@,
        ),
{
    let w = curr_state.width;
    let h = curr_state.height;
    let ghost cells0 = curr_state.possible_vals.inner@;
    let ghost rs = rules.rules@;
    let mut new_possibilities = curr_state.possible_vals.duplicate();
    let mut x: usize = 0;
    while x < w
        invariant
            curr_state.wf(),
            w == curr_state.width,
            h == curr_state.height,
            cells0 == curr_state.possible_vals.inner@,
            rs == rules.rules@,
            x <= w,
            new_possibilities.wf(),
            new_possibilities.width == w,
            new_possibilities.height == h,
            forall|x2: int, y2: int|
                0 <= x2 < w && 0 <= y2 < h && x2 < x
                    ==> #[trigger] new_possibilities.spec_cell(x2, y2) == prop_cell(
                    cells0,
                    w as int,
                    h as int,
                    rs,
                    x2,
                    y2,
                ),
            forall|x2: int, y2: int|
                0 <= x2 < w && 0 <= y2 < h && x2 >= x
                    ==> #[trigger] new_possibilities.spec_cell(x2, y2) == cell_at(
                    cells0,
                    h as int,
                    x2,
                    y2,
                ),
        decreases w - x,
    {
        let mut y: usize = 0;
        while y < h
            invariant
                curr_state.wf(),
                w == curr_state.width,
                h == curr_state.height,
                cells0 == curr_state.possible_vals.inner@,
                rs == rules.rules@,
                x < w,
                y <= h,
                new_possibilities.wf(),
                new_possibilities.width == w,
                new_possibilities.height == h,
                forall|x2: int, y2: int|
                    0 <= x2 < w && 0 <= y2 < h && (x2 < x || (x2 == x && y2 < y))
                        ==> #[trigger] new_possibilities.spec_cell(x2, y2) == prop_cell(
                        cells0,
                        w as int,
                        h as int,
                        rs,
                        x2,
                        y2,
                    ),
                forall|x2: int, y2: int|
                    0 <= x2 < w && 0 <= y2 < h && !(x2 < x || (x2 == x && y2 < y))
                        ==> #[trigger] new_possibilities.spec_cell(x2, y2) == cell_at(
                        cells0,
                        h as int,
                        x2,
                        y2,
                    ),
            decreases h - y,
        {
            let possibilities = curr_state.possible_vals.get(x, y);
            if possibilities.len() != 1 {
                let r_ok = if possibilities.contains(Tile::Red) {
                    tile_ok(&curr_state.possible_vals, rules, x, y, Tile::Red)
                } else {
                    false
                };
                let g_ok = if possibilities.contains(Tile::Green) {
                    tile_ok(&curr_state.possible_vals, rules, x, y, Tile::Green)
                } else {
                    false
                };
                let b_ok = if possibilities.contains(Tile::Blue) {
                    tile_ok(&curr_state.possible_vals, rules, x, y, Tile::Blue)
                } else {
                    false
                };
                let new_set = TileSet { red: r_ok, green: g_ok, blue: b_ok };
                proof {
                    assert(new_set == prop_cell(cells0, w as int, h as int, rs, x as int, y as int));
                }
                new_possibilities.set(x, y, new_set);
            } else {
                proof {
                    assert(new_possibilities.spec_cell(x as int, y as int) == prop_cell(
                        cells0,
                        w as int,
                        h as int,
                        rs,
                        x as int,
                        y as int,
                    ));
                }
            }
            y = y + 1;
        }
        x = x + 1;
    }
    proof {
        assert forall|x2: int, y2: int|
            0 <= x2 < w && 0 <= y2 < h implies #[trigger] new_possibilities.inner@[x2 * h as int
            + y2] == prop_cell(cells0, w as int, h as int, rs, x2, y2) by {
            assert(new_possibilities.spec_cell(x2, y2) == prop_cell(
                cells0,
                w as int,
                h as int,
                rs,
                x2,
                y2,
            ));
        }
        lemma_wave_eq_by_cells(new_possibilities.inner@, cells0, w as int, h as int, rs);
    }
    if contains_invalid_tiles(&new_possibilities) {
        return None;
    }
    Some(curr_state.with_possibilities(new_possibilities))
}

} // verus!
