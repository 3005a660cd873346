//! The mathematical model of one propagation pass over a wave, and the
//! laws it obeys: monotone shrinking, preservation of collapsed cells, and
//! a fixed point reached within a bounded number of passes and stable once
//! reached.

use vstd::prelude::*;

use vstd::arithmetic::div_mod::lemma_fundamental_div_mod_converse;

use crate::enums::{Direction, Tile, TileSet};
use crate::rules::Rule;
use crate::state::{total_entropy, total_from};

verus! {

/// The cell at `(x, y)` of a wave stored column by column with height `h`.
pub open spec fn cell_at(cells: Seq<TileSet>, h: int, x: int, y: int) -> TileSet {
    cells[x * h + y]
}

/// The neighbor of `(x, y)` in direction `d` lies inside a `w` x `h` grid.
pub open spec fn nb_in_bounds(w: int, h: int, x: int, y: int, d: Direction) -> bool {
    &&& 0 <= x + d.spec_dx() < w
    &&& 0 <= y + d.spec_dy() < h
}

/// The label `t` at cell `(x, y)` is supported toward direction `d`: some
/// rule claims `t` in that direction, and every such rule finds its
/// required neighbor label still admissible there.
pub open spec fn dir_supported(
    cells: Seq<TileSet>,
    h: int,
    rules: Seq<Rule>,
    x: int,
    y: int,
    t: Tile,
    d: Direction,
) -> bool {
    &&& exists|k: int|
        0 <= k < rules.len() && (#[trigger] rules[k]).curr_tile == t && rules[k].direction == d
    &&& forall|k: int|
        0 <= k < rules.len() && (#[trigger] rules[k]).curr_tile == t && rules[k].direction == d
            ==> cell_at(cells, h, x + d.spec_dx(), y + d.spec_dy()).spec_contains(rules[k].adj_tile)
}

/// The label `t` survives at cell `(x, y)`: it is supported toward every
/// direction whose neighbor exists.
pub open spec fn tile_allowed(
    cells: Seq<TileSet>,
    w: int,
    h: int,
    rules: Seq<Rule>,
    x: int,
    y: int,
    t: Tile,
) -> bool {
    forall|d: Direction|
        nb_in_bounds(w, h, x, y, d) ==> #[trigger] dir_supported(cells, h, rules, x, y, t, d)
}

/// What one propagation pass leaves at cell `(x, y)`: a collapsed cell is
/// kept as it is; otherwise exactly the surviving labels remain.
pub open spec fn prop_cell(
    cells: Seq<TileSet>,
    w: int,
    h: int,
    rules: Seq<Rule>,
    x: int,
    y: int,
) -> TileSet {
    let c = cell_at(cells, h, x, y);
    if c.spec_len() == 1 {
        c
    } else {
        TileSet {
            red: c.spec_contains(Tile::Red) && tile_allowed(cells, w, h, rules, x, y, Tile::Red),
            green: c.spec_contains(Tile::Green) && tile_allowed(
                cells,
                w,
                h,
                rules,
                x,
                y,
                Tile::Green,
            ),
            blue: c.spec_contains(Tile::Blue) && tile_allowed(cells, w, h, rules, x, y, Tile::Blue),
        }
    }
}

/// One whole propagation pass: every cell filtered against the input wave.
pub open spec fn prop_wave(cells: Seq<TileSet>, w: int, h: int, rules: Seq<Rule>) -> Seq<TileSet> {
    Seq::new(cells.len(), |i: int| prop_cell(cells, w, h, rules, i / h, i % h))
}

/// `n` propagation passes in a row.
pub open spec fn prop_iter(
    cells: Seq<TileSet>,
    w: int,
    h: int,
    rules: Seq<Rule>,
    n: nat,
) -> Seq<TileSet>
    decreases n,
{
    if n == 0 {
        cells
    } else {
        prop_wave(prop_iter(cells, w, h, rules, (n - 1) as nat), w, h, rules)
    }
}

/// A pass maps the flat index of an in-bounds cell to that cell's filtered set.
pub proof fn lemma_prop_wave_cell(
    cells: Seq<TileSet>,
    w: int,
    h: int,
    rules: Seq<Rule>,
    x: int,
    y: int,
)
    requires
        cells.len() == w * h,
        0 <= x < w,
        0 <= y < h,
    ensures
        0 <= x * h + y < cells.len(),
        prop_wave(cells, w, h, rules)[x * h + y] == prop_cell(cells, w, h, rules, x, y),
{
    crate::grid::lemma_grid_index(w, h, x, y);
    lemma_fundamental_div_mod_converse(x * h + y, h, x, y);
}

/// A wave that agrees with the pass's output at every in-bounds cell is the
/// pass's output.
pub proof fn lemma_wave_eq_by_cells(
    a: Seq<TileSet>,
    cells: Seq<TileSet>,
    w: int,
    h: int,
    rules: Seq<Rule>,
)
    requires
        0 <= w,
        0 <= h,
        a.len() == w * h,
        cells.len() == w * h,
        forall|x: int, y: int|
            0 <= x < w && 0 <= y < h ==> #[trigger] a[x * h + y] == prop_cell(
                cells,
                w,
                h,
                rules,
                x,
                y,
            ),
    ensures
        a == prop_wave(cells, w, h, rules),
{
    let b = prop_wave(cells, w, h, rules);
    assert forall|i: int| 0 <= i < a.len() implies a[i] == b[i] by {
        assert(h > 0) by (nonlinear_arith)
            requires
                0 <= h,
                0 <= w,
                w * h > i,
                i >= 0,
        ;
        let x = i / h;
        let y = i % h;
        vstd::arithmetic::div_mod::lemma_fundamental_div_mod(i, h);
        vstd::arithmetic::div_mod::lemma_mod_pos_bound(i, h);
        assert(0 <= y < h);
        assert(i == x * h + y) by (nonlinear_arith)
            requires
                i == h * (i / h) + i % h,
                x == i / h,
                y == i % h,
        ;
        assert(0 <= x < w) by (nonlinear_arith)
            requires
                0 <= i < w * h,
                0 <= y < h,
                i == x * h + y,
        ;
        assert(a[x * h + y] == prop_cell(cells, w, h, rules, x, y));
    }
    assert(a =~= b);
}

/// A cell with exactly one possibility never changes under propagation
/// alone: only an explicit reset to a snapshot may change it.
pub proof fn lemma_collapsed_cell_preserved(
    cells: Seq<TileSet>,
    w: int,
    h: int,
    rules: Seq<Rule>,
    x: int,
    y: int,
)
    requires
        cell_at(cells, h, x, y).spec_len() == 1,
    ensures
        prop_cell(cells, w, h, rules, x, y) == cell_at(cells, h, x, y),
{
}

/// One pass only ever shrinks a cell's possibility set.
pub proof fn lemma_prop_cell_subset(
    cells: Seq<TileSet>,
    w: int,
    h: int,
    rules: Seq<Rule>,
    x: int,
    y: int,
)
    ensures
        prop_cell(cells, w, h, rules, x, y).spec_subset_of(cell_at(cells, h, x, y)),
{
}

/// One pass shrinks every cell of the wave: propagation is monotone.
pub proof fn lemma_prop_wave_subset(cells: Seq<TileSet>, w: int, h: int, rules: Seq<Rule>)
    requires
        cells.len() == w * h,
        0 <= w,
        0 <= h,
    ensures
        prop_wave(cells, w, h, rules).len() == cells.len(),
        forall|i: int|
            0 <= i < cells.len() ==> (#[trigger] prop_wave(cells, w, h, rules)[i]).spec_subset_of(
                cells[i],
            ),
{
    let b = prop_wave(cells, w, h, rules);
    assert forall|i: int| 0 <= i < cells.len() implies (#[trigger] b[i]).spec_subset_of(
        cells[i],
    ) by {
        lemma_index_decompose(w, h, i);
        let x = i / h;
        let y = i % h;
        lemma_prop_cell_subset(cells, w, h, rules, x, y);
    }
}

/// An in-bounds flat index splits into the coordinates it encodes.
pub proof fn lemma_index_decompose(w: int, h: int, i: int)
    requires
        0 <= w,
        0 <= h,
        0 <= i < w * h,
    ensures
        h > 0,
        0 <= i / h < w,
        0 <= i % h < h,
        i == (i / h) * h + (i % h),
{
    assert(h > 0) by (nonlinear_arith)
        requires
            0 <= h,
            0 <= w,
            w * h > i,
            i >= 0,
    ;
    vstd::arithmetic::div_mod::lemma_fundamental_div_mod(i, h);
    vstd::arithmetic::div_mod::lemma_mod_pos_bound(i, h);
    assert(i == (i / h) * h + (i % h)) by (nonlinear_arith)
        requires
            i == h * (i / h) + i % h,
    ;
    assert(0 <= i / h < w) by (nonlinear_arith)
        requires
            0 <= i < w * h,
            0 <= i % h < h,
            i == (i / h) * h + (i % h),
    ;
}

/// Cellwise-smaller waves have no larger a total entropy.
pub proof fn lemma_total_from_le(a: Seq<TileSet>, b: Seq<TileSet>, i: int)
    requires
        a.len() == b.len(),
        forall|j: int| 0 <= j < a.len() ==> (#[trigger] a[j]).spec_subset_of(b[j]),
    ensures
        total_from(a, i) <= total_from(b, i),
    decreases a.len() - i,
{
    if 0 <= i && i < a.len() {
        lemma_total_from_le(a, b, i + 1);
    }
}

/// A wave that is cellwise smaller and differs somewhere has a strictly
/// smaller total entropy.
pub proof fn lemma_total_from_lt(a: Seq<TileSet>, b: Seq<TileSet>, i: int, j: int)
    requires
        a.len() == b.len(),
        forall|k: int| 0 <= k < a.len() ==> (#[trigger] a[k]).spec_subset_of(b[k]),
        0 <= i <= j < a.len(),
        a[j] != b[j],
    ensures
        total_from(a, i) < total_from(b, i),
    decreases j - i,
{
    if i == j {
        assert(a[j].spec_len() < b[j].spec_len());
        lemma_total_from_le(a, b, i + 1);
    } else {
        lemma_total_from_lt(a, b, i + 1, j);
    }
}

/// Equal total entropies force cellwise-smaller waves to agree everywhere.
pub proof fn lemma_total_from_eq(a: Seq<TileSet>, b: Seq<TileSet>)
    requires
        a.len() == b.len(),
        forall|k: int| 0 <= k < a.len() ==> (#[trigger] a[k]).spec_subset_of(b[k]),
        total_entropy(a) == total_entropy(b),
    ensures
        forall|j: int| 0 <= j < a.len() ==> a[j] == b[j],
        a == b,
{
    assert forall|j: int| 0 <= j < a.len() implies a[j] == b[j] by {
        if a[j] != b[j] {
            lemma_total_from_lt(a, b, 0, j);
        }
    }
    assert(a =~= b);
}

/// Passes keep the wave's size.
pub proof fn lemma_prop_iter_len(cells: Seq<TileSet>, w: int, h: int, rules: Seq<Rule>, n: nat)
    ensures
        prop_iter(cells, w, h, rules, n).len() == cells.len(),
    decreases n,
{
    if n > 0 {
        lemma_prop_iter_len(cells, w, h, rules, (n - 1) as nat);
    }
}

/// Repeated application of the propagator never increases any cell's
/// possibility-set size: later passes leave cellwise-smaller waves.
pub proof fn lemma_prop_iter_monotone(
    cells: Seq<TileSet>,
    w: int,
    h: int,
    rules: Seq<Rule>,
    n: nat,
    m: nat,
)
    requires
        cells.len() == w * h,
        0 <= w,
        0 <= h,
        n <= m,
    ensures
        forall|i: int|
            0 <= i < cells.len() ==> (#[trigger] prop_iter(cells, w, h, rules, m)[i]).spec_subset_of(
                prop_iter(cells, w, h, rules, n)[i],
            ),
    decreases m,
{
    lemma_prop_iter_len(cells, w, h, rules, n);
    lemma_prop_iter_len(cells, w, h, rules, m);
    if m == n {
        assert forall|i: int|
            0 <= i < cells.len() implies (#[trigger] prop_iter(cells, w, h, rules, m)[i]).spec_subset_of(
            prop_iter(cells, w, h, rules, n)[i],
        ) by {}
    } else {
        lemma_prop_iter_monotone(cells, w, h, rules, n, (m - 1) as nat);
        lemma_prop_iter_len(cells, w, h, rules, (m - 1) as nat);
        lemma_prop_wave_subset(prop_iter(cells, w, h, rules, (m - 1) as nat), w, h, rules);
        assert forall|i: int|
            0 <= i < cells.len() implies (#[trigger] prop_iter(cells, w, h, rules, m)[i]).spec_subset_of(
            prop_iter(cells, w, h, rules, n)[i],
        ) by {
            assert(prop_iter(cells, w, h, rules, m) == prop_wave(
                prop_iter(cells, w, h, rules, (m - 1) as nat),
                w,
                h,
                rules,
            ));
            assert(prop_iter(cells, w, h, rules, m)[i].spec_subset_of(
                prop_iter(cells, w, h, rules, (m - 1) as nat)[i],
            ));
            assert(prop_iter(cells, w, h, rules, (m - 1) as nat)[i].spec_subset_of(
                prop_iter(cells, w, h, rules, n)[i],
            ));
        }
    }
}

/// Once two consecutive passes produce identical waves, every further pass
/// produces that same wave.
pub proof fn lemma_fixpoint_persists(
    cells: Seq<TileSet>,
    w: int,
    h: int,
    rules: Seq<Rule>,
    n: nat,
    m: nat,
)
    requires
        prop_iter(cells, w, h, rules, n + 1) == prop_iter(cells, w, h, rules, n),
        n <= m,
    ensures
        prop_iter(cells, w, h, rules, m) == prop_iter(cells, w, h, rules, n),
    decreases m,
{
    if m > n {
        lemma_fixpoint_persists(cells, w, h, rules, n, (m - 1) as nat);
    }
}

/// Running one more pass after `k` passes is running `k` passes on the
/// first pass's output.
pub proof fn lemma_prop_iter_shift(cells: Seq<TileSet>, w: int, h: int, rules: Seq<Rule>, k: nat)
    ensures
        prop_iter(cells, w, h, rules, k + 1) == prop_iter(
            prop_wave(cells, w, h, rules),
            w,
            h,
            rules,
            k,
        ),
    decreases k,
{
    let next = prop_wave(cells, w, h, rules);
    if k == 0 {
        assert(prop_iter(cells, w, h, rules, 0) == cells);
        assert(prop_iter(cells, w, h, rules, 1) == prop_wave(
            prop_iter(cells, w, h, rules, 0),
            w,
            h,
            rules,
        ));
        assert(prop_iter(next, w, h, rules, 0) == next);
    } else {
        lemma_prop_iter_shift(cells, w, h, rules, (k - 1) as nat);
        assert(prop_iter(cells, w, h, rules, k + 1) == prop_wave(
            prop_iter(cells, w, h, rules, k),
            w,
            h,
            rules,
        ));
        assert(prop_iter(next, w, h, rules, k) == prop_wave(
            prop_iter(next, w, h, rules, (k - 1) as nat),
            w,
            h,
            rules,
        ));
    }
}

/// Repeated passes reach a fixed point after at most as many passes as the
/// wave's total entropy: every non-stable pass removes at least one
/// possibility, and the possibility count cannot fall below zero.
pub proof fn lemma_fixpoint_reached(cells: Seq<TileSet>, w: int, h: int, rules: Seq<Rule>)
    requires
        cells.len() == w * h,
        0 <= w,
        0 <= h,
    ensures
        exists|n: nat|
            n <= total_entropy(cells) && #[trigger] prop_iter(cells, w, h, rules, n + 1)
                == prop_iter(cells, w, h, rules, n),
    decreases total_entropy(cells),
{
    let next = prop_wave(cells, w, h, rules);
    lemma_prop_wave_subset(cells, w, h, rules);
    if next == cells {
        assert(prop_iter(cells, w, h, rules, 1) == prop_iter(cells, w, h, rules, 0));
        assert(0 <= total_entropy(cells) && prop_iter(cells, w, h, rules, 0 + 1) == prop_iter(
            cells,
            w,
            h,
            rules,
            0,
        ));
    } else {
        if forall|i: int| 0 <= i < cells.len() ==> #[trigger] next[i] == cells[i] {
            assert(next =~= cells);
        }
        let j = choose|j: int| 0 <= j < cells.len() && #[trigger] next[j] != cells[j];
        lemma_total_from_lt(next, cells, 0, j);
        lemma_fixpoint_reached(next, w, h, rules);
        let n0 = choose|n0: nat|
            n0 <= total_entropy(next) && #[trigger] prop_iter(next, w, h, rules, n0 + 1)
                == prop_iter(next, w, h, rules, n0);
        lemma_prop_iter_shift(cells, w, h, rules, n0);
        lemma_prop_iter_shift(cells, w, h, rules, n0 + 1);
        assert(prop_iter(cells, w, h, rules, (n0 + 1) + 1) == prop_iter(cells, w, h, rules, n0 + 1));
        assert(n0 + 1 <= total_entropy(cells) && prop_iter(cells, w, h, rules, (n0 + 1) + 1)
            == prop_iter(cells, w, h, rules, n0 + 1));
    }
}

} // verus!
