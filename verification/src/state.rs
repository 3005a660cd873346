//! The wave: a grid of per-cell possibility sets, and the run state around it.

use vstd::prelude::*;

use crate::enums::{Tile, TileSet};
use crate::grid::{lemma_grid_index, lemma_grid_index_injective, TileGrid};
use crate::prop::{
    lemma_fixpoint_persists, lemma_prop_wave_subset, lemma_total_from_eq, lemma_total_from_le,
    lemma_total_from_lt, prop_iter, prop_wave,
};
use crate::random::random_below;
use crate::rules::{apply_rules, in_alphabet, RuleSet};

verus! {

/// Sum of the possibility counts of `cells[i..]`.
pub open spec fn total_from(cells: Seq<TileSet>, i: int) -> nat
    decreases cells.len() - i,
{
    if i < 0 || i >= cells.len() {
        0
    } else {
        cells[i].spec_len() + total_from(cells, i + 1)
    }
}

/// Sum of the possibility counts of all cells: the wave's total entropy.
pub open spec fn total_entropy(cells: Seq<TileSet>) -> nat {
    total_from(cells, 0)
}

/// Some cell's possibility set is empty: a contradiction.
pub open spec fn has_empty_cell(cells: Seq<TileSet>) -> bool {
    exists|i: int| 0 <= i < cells.len() && cells[i].spec_is_empty()
}

/// The wave's cells: a `width` x `height` grid of possibility sets,
/// addressed by `(x, y)`. Cell `(x, y)` lives at flat index `x * height + y`.
pub struct PossibleVals {
    pub width: usize,
    pub height: usize,
    pub inner: Vec<TileSet>,
}

impl PossibleVals {
    /// The cell vector matches the dimensions, and the total entropy can
    /// never outgrow `usize`.
    pub open spec fn wf(self) -> bool {
        &&& self.inner@.len() == self.width * self.height
        &&& 3 * (self.width * self.height) <= usize::MAX
    }

    pub open spec fn in_bounds(self, x: int, y: int) -> bool {
        0 <= x < self.width && 0 <= y < self.height
    }

    pub open spec fn spec_cell(self, x: int, y: int) -> TileSet {
        self.inner@[x * self.height + y]
    }

    /// A fresh wave with every cell holding `fill`.
    pub fn filled(width: usize, height: usize, fill: TileSet) -> (pv: PossibleVals)
        requires
            3 * (width * height) <= usize::MAX,
        ensures
            pv.wf(),
            pv.width == width,
            pv.height == height,
            forall|i: int| 0 <= i < pv.inner@.len() ==> pv.inner@[i] == fill,
    {
        proof {
            assert(width * height >= 0) by (nonlinear_arith);
        }
        let total = width * height;
        let mut inner: Vec<TileSet> = Vec::new();
        let mut i: usize = 0;
        while i < total
            invariant
                i <= total,
                inner@.len() == i,
                forall|j: int| 0 <= j < i ==> inner@[j] == fill,
            decreases total - i,
        {
            inner.push(fill);
            i = i + 1;
        }
        PossibleVals { width, height, inner }
    }

    /// The possibility set at cell `(x, y)`.
    pub fn get(&self, x: usize, y: usize) -> (s: TileSet)
        requires
            self.wf(),
            self.in_bounds(x as int, y as int),
        ensures
            s == self.spec_cell(x as int, y as int),
    {
        let n = self.inner.len();
        proof {
            lemma_grid_index(self.width as int, self.height as int, x as int, y as int);
        }
        self.inner[x * self.height + y]
    }

    /// Replaces the possibility set at cell `(x, y)`; every other cell keeps
    /// its set.
    pub fn set(&mut self, x: usize, y: usize, value: TileSet)
        requires
            old(self).wf(),
            old(self).in_bounds(x as int, y as int),
        ensures
            final(self).wf(),
            final(self).width == old(self).width,
            final(self).height == old(self).height,
            final(self).inner@ == old(self).inner@.update(
                x as int * old(self).height + y as int,
                value,
            ),
            final(self).spec_cell(x as int, y as int) == value,
            forall|x2: int, y2: int|
                final(self).in_bounds(x2, y2) && !(x2 == x && y2 == y)
                    ==> final(self).spec_cell(x2, y2) == old(self).spec_cell(x2, y2),
    {
        let n = self.inner.len();
        proof {
            lemma_grid_index(self.width as int, self.height as int, x as int, y as int);
        }
        let i = x * self.height + y;
        self.inner[i] = value;
        proof {
            assert forall|x2: int, y2: int|
                self.in_bounds(x2, y2) && !(x2 == x && y2 == y) implies self.spec_cell(x2, y2)
                == old(self).spec_cell(x2, y2) by {
                lemma_grid_index(self.width as int, self.height as int, x2, y2);
                if x2 * self.height as int + y2 == x as int * self.height as int + y as int {
                    lemma_grid_index_injective(self.height as int, x2, y2, x as int, y as int);
                }
            }
        }
    }

    /// The wave's dimensions, or `None` for a wave of zero width.
    pub fn size(&self) -> (s: Option<(usize, usize)>)
        ensures
            s == if self.width == 0 {
                None::<(usize, usize)>
            } else {
                Some((self.width, self.height))
            },
    {
        if self.width == 0 {
            return None;
        }
        Some((self.width, self.height))
    }

    /// An independent deep copy, the snapshot the retry policy restores to.
    pub fn duplicate(&self) -> (r: PossibleVals)
        ensures
            r.width == self.width,
            r.height == self.height,
            r.inner@ == self.inner@,
    {
        let mut inner: Vec<TileSet> = Vec::new();
        let mut i: usize = 0;
        while i < self.inner.len()
            invariant
                i <= self.inner@.len(),
                inner@.len() == i,
                forall|j: int| 0 <= j < i ==> inner@[j] == self.inner@[j],
            decreases self.inner@.len() - i,
        {
            inner.push(self.inner[i]);
            i = i + 1;
        }
        proof {
            assert(inner@ =~= self.inner@);
        }
        PossibleVals { width: self.width, height: self.height, inner }
    }
}

/// True if and only if some cell's possibility set is empty.
pub fn contains_invalid_tiles(possible_vals: &PossibleVals) -> (b: bool)
    ensures
        b == has_empty_cell(possible_vals.inner@),
{
    let mut i: usize = 0;
    while i < possible_vals.inner.len()
        invariant
            i <= possible_vals.inner@.len(),
            forall|j: int| 0 <= j < i ==> !possible_vals.inner@[j].spec_is_empty(),
        decreases possible_vals.inner@.len() - i,
    {
        if possible_vals.inner[i].is_empty() {
            proof {
                assert(0 <= i < possible_vals.inner@.len() && possible_vals.inner@[
                    i as int].spec_is_empty());
            }
            return true;
        }
        i = i + 1;
    }
    false
}

/// The collapse run's working state: the wave and its dimensions.
pub struct State {
    pub possible_vals: PossibleVals,
    pub width: usize,
    pub height: usize,
    pub curr_file_index: u32,
}

impl State {
    pub open spec fn wf(self) -> bool {
        &&& self.possible_vals.wf()
        &&& self.possible_vals.width == self.width
        &&& self.possible_vals.height == self.height
    }

    /// A fresh run state whose wave holds `all_tiles_types` everywhere: no
    /// cell is biased before propagation.
    pub fn new(w: usize, h: usize, all_tiles_types: &TileSet) -> (s: State)
        requires
            3 * (w * h) <= usize::MAX,
        ensures
            s.wf(),
            s.width == w,
            s.height == h,
            s.curr_file_index == 0,
            forall|i: int|
                0 <= i < s.possible_vals.inner@.len() ==> s.possible_vals.inner@[i]
                    == *all_tiles_types,
    {
        State {
            possible_vals: PossibleVals::filled(w, h, *all_tiles_types),
            curr_file_index: 0,
            width: w,
            height: h,
        }
    }

    /// The possibility set at cell `(x, y)`.
    pub fn get(&self, x: usize, y: usize) -> (s: TileSet)
        requires
            self.wf(),
            self.possible_vals.in_bounds(x as int, y as int),
        ensures
            s == self.possible_vals.spec_cell(x as int, y as int),
    {
        self.possible_vals.get(x, y)
    }

    /// The sum of all cells' possibility counts.
    pub fn get_total_entropy(&self) -> (n: usize)
        requires
            self.wf(),
        ensures
            n == total_entropy(self.possible_vals.inner@),
    {
        let cells = &self.possible_vals.inner;
        let mut n: usize = 0;
        let mut i: usize = 0;
        while i < cells.len()
            invariant
                self.wf(),
                cells == &self.possible_vals.inner,
                i <= cells@.len(),
                n <= 3 * i,
                n + total_from(cells@, i as int) == total_entropy(cells@),
            decreases cells@.len() - i,
        {
            n = n + cells[i].len();
            i = i + 1;
        }
        n
    }

    /// This state with its wave replaced; dimensions are kept.
    pub fn with_possibilities(&self, possible_vals: PossibleVals) -> (s: State)
        requires
            possible_vals.width == self.width,
            possible_vals.height == self.height,
        ensures
            s.possible_vals == possible_vals,
            s.width == self.width,
            s.height == self.height,
            s.curr_file_index == self.curr_file_index,
    {
        State {
            possible_vals,
            width: self.width,
            height: self.height,
            curr_file_index: self.curr_file_index,
        }
    }

    /// An independent deep copy of the whole run state.
    pub fn duplicate(&self) -> (s: State)
        ensures
            s.possible_vals.width == self.possible_vals.width,
            s.possible_vals.height == self.possible_vals.height,
            s.possible_vals.inner@ == self.possible_vals.inner@,
            s.width == self.width,
            s.height == self.height,
            s.curr_file_index == self.curr_file_index,
    {
        State {
            possible_vals: self.possible_vals.duplicate(),
            width: self.width,
            height: self.height,
            curr_file_index: self.curr_file_index,
        }
    }
}

/// Picks an undetermined cell of lowest entropy: one whose possibility set
/// is smallest among all sets of size at least two, the tie broken at
/// random. Returns `None` exactly when no undetermined cell is left.
pub fn get_lowest_entropy_tile(possible_vals: &PossibleVals) -> (res: Option<(usize, usize)>)
    requires
        possible_vals.wf(),
    ensures
        res is None <==> forall|x: int, y: int|
            possible_vals.in_bounds(x, y) ==> (#[trigger] possible_vals.spec_cell(
                x,
                y,
            )).spec_len() <= 1,
        res matches Some(c) ==> possible_vals.in_bounds(c.0 as int, c.1 as int)
            && possible_vals.spec_cell(c.0 as int, c.1 as int).spec_len() >= 2 && forall|
            x: int,
            y: int,
        |
            possible_vals.in_bounds(x, y) && (#[trigger] possible_vals.spec_cell(x, y)).spec_len()
                >= 2 ==> possible_vals.spec_cell(c.0 as int, c.1 as int).spec_len()
                <= possible_vals.spec_cell(x, y).spec_len(),
{
    let pv = possible_vals;
    let w = pv.width;
    let h = pv.height;
    let mut min_entropy: usize = usize::MAX;
    let mut cands: Vec<(usize, usize)> = Vec::new();
    let mut x: usize = 0;
    while x < w
        invariant
            pv.wf(),
            w == pv.width,
            h == pv.height,
            x <= w,
            cands@.len() == 0 <==> forall|x2: int, y2: int|
                pv.in_bounds(x2, y2) && x2 < x ==> (#[trigger] pv.spec_cell(x2, y2)).spec_len()
                    <= 1,
            cands@.len() == 0 ==> min_entropy == usize::MAX,
            cands@.len() > 0 ==> 2 <= min_entropy,
            forall|i: int|
                0 <= i < cands@.len() ==> pv.in_bounds(
                    (#[trigger] cands@[i]).0 as int,
                    cands@[i].1 as int,
                ) && pv.spec_cell(cands@[i].0 as int, cands@[i].1 as int).spec_len()
                    == min_entropy,
            forall|x2: int, y2: int|
                pv.in_bounds(x2, y2) && x2 < x && (#[trigger] pv.spec_cell(x2, y2)).spec_len() >= 2
                    ==> min_entropy <= pv.spec_cell(x2, y2).spec_len(),
        decreases w - x,
    {
        let mut y: usize = 0;
        while y < h
            invariant
                pv.wf(),
                w == pv.width,
                h == pv.height,
                x < w,
                y <= h,
                cands@.len() == 0 <==> forall|x2: int, y2: int|
                    pv.in_bounds(x2, y2) && (x2 < x || (x2 == x && y2 < y)) ==> (
                    #[trigger] pv.spec_cell(x2, y2)).spec_len() <= 1,
                cands@.len() == 0 ==> min_entropy == usize::MAX,
                cands@.len() > 0 ==> 2 <= min_entropy,
                forall|i: int|
                    0 <= i < cands@.len() ==> pv.in_bounds(
                        (#[trigger] cands@[i]).0 as int,
                        cands@[i].1 as int,
                    ) && pv.spec_cell(cands@[i].0 as int, cands@[i].1 as int).spec_len()
                        == min_entropy,
                forall|x2: int, y2: int|
                    pv.in_bounds(x2, y2) && (x2 < x || (x2 == x && y2 < y)) && (
                    #[trigger] pv.spec_cell(x2, y2)).spec_len() >= 2 ==> min_entropy
                        <= pv.spec_cell(x2, y2).spec_len(),
            decreases h - y,
        {
            let entropy = pv.get(x, y).len();
            if entropy > 1 {
                if entropy < min_entropy {
                    min_entropy = entropy;
                    cands.clear();
                    cands.push((x, y));
                } else if entropy == min_entropy {
                    cands.push((x, y));
                }
            }
            y = y + 1;
        }
        x = x + 1;
    }
    if cands.len() == 0 {
        return None;
    }
    let idx = random_below(cands.len());
    let c = cands[idx];
    proof {
        assert(pv.spec_cell(c.0 as int, c.1 as int).spec_len() >= 2);
    }
    Some(c)
}

/// Decodes a fully collapsed wave into a grid of labels. Returns a grid if
/// and only if every cell holds exactly one possibility; the label written
/// at each cell is that single possibility. Never mutates and never
/// chooses.
pub fn get_image_from_possible_vals(state: &State) -> (res: Option<TileGrid>)
    requires
        state.wf(),
    ensures
        res is Some <==> forall|x: int, y: int|
            state.possible_vals.in_bounds(x, y) ==> (#[trigger] state.possible_vals.spec_cell(
                x,
                y,
            )).spec_len() == 1,
        res matches Some(g) ==> g.wf() && g.width == state.width && g.height == state.height
            && forall|x: int, y: int|
            g.in_bounds(x, y) ==> state.possible_vals.spec_cell(x, y).spec_contains(
                #[trigger] g.spec_cell(x, y),
            ),
{
    let pv = &state.possible_vals;
    let w = state.width;
    let h = state.height;
    proof {
        assert(w * h >= 0) by (nonlinear_arith);
    }
    let mut img = TileGrid::new(w, h, Tile::Red);
    let mut x: usize = 0;
    while x < w
        invariant
            state.wf(),
            pv == &state.possible_vals,
            w == state.width,
            h == state.height,
            x <= w,
            img.wf(),
            img.width == w,
            img.height == h,
            forall|x2: int, y2: int|
                img.in_bounds(x2, y2) && x2 < x ==> pv.spec_cell(x2, y2).spec_len() == 1
                    && pv.spec_cell(x2, y2).spec_contains(#[trigger] img.spec_cell(x2, y2)),
        decreases w - x,
    {
        let mut y: usize = 0;
        while y < h
            invariant
                state.wf(),
                pv == &state.possible_vals,
                w == state.width,
                h == state.height,
                x < w,
                y <= h,
                img.wf(),
                img.width == w,
                img.height == h,
                forall|x2: int, y2: int|
                    img.in_bounds(x2, y2) && (x2 < x || (x2 == x && y2 < y)) ==> pv.spec_cell(
                        x2,
                        y2,
                    ).spec_len() == 1 && pv.spec_cell(x2, y2).spec_contains(
                        #[trigger] img.spec_cell(x2, y2),
                    ),
            decreases h - y,
        {
            let cell = pv.get(x, y);
            if cell.len() != 1 {
                proof {
                    assert(pv.in_bounds(x as int, y as int) && pv.spec_cell(
                        x as int,
                        y as int,
                    ).spec_len() != 1);
                }
                return None;
            }
            let members = cell.members();
            img.set(x, y, members[0]);
            y = y + 1;
        }
        x = x + 1;
    }
    proof {
        assert forall|x2: int, y2: int| pv.in_bounds(x2, y2) implies (#[trigger] pv.spec_cell(
            x2,
            y2,
        )).spec_len() == 1 by {
            assert(img.in_bounds(x2, y2) && x2 < w);
            assert(pv.spec_cell(x2, y2).spec_len() == 1 && pv.spec_cell(x2, y2).spec_contains(
                img.spec_cell(x2, y2),
            ));
        }
    }
    Some(img)
}

/// Runs the propagator to a fixed point: passes are applied until no
/// cell's set changes between two consecutive passes, which a finite wave
/// reaches because every other pass strictly lowers the total entropy.
/// Returns the fixed point, with every cell shrunk or kept; returns `None`
/// only if some pass produced a contradiction, and always succeeds on a
/// wave that is already a contradiction-free fixed point.
pub fn propagate_to_fixpoint(state: State, rules: &RuleSet) -> (res: Option<State>)
    requires
        state.wf(),
    ensures
        res matches Some(s2) ==> s2.wf() && s2.width == state.width && s2.height == state.height
            && s2.curr_file_index == state.curr_file_index && prop_wave(
            s2.possible_vals.inner@,
            state.width as int,
            state.height as int,
            rules.rules@,
        ) == s2.possible_vals.inner@ && !has_empty_cell(s2.possible_vals.inner@) && (exists|n: nat|
            s2.possible_vals.inner@ == prop_iter(
                state.possible_vals.inner@,
                state.width as int,
                state.height as int,
                rules.rules@,
                n,
            )) && (forall|i: int|
            0 <= i < state.possible_vals.inner@.len()
                ==> (#[trigger] s2.possible_vals.inner@[i]).spec_subset_of(
                state.possible_vals.inner@[i],
            )) && total_entropy(s2.possible_vals.inner@) <= total_entropy(
            state.possible_vals.inner@,
        ),
        res is None ==> exists|n: nat|
            has_empty_cell(
                #[trigger] prop_iter(
                    state.possible_vals.inner@,
                    state.width as int,
                    state.height as int,
                    rules.rules@,
                    n,
                ),
            ),
        prop_wave(
            state.possible_vals.inner@,
            state.width as int,
            state.height as int,
            rules.rules@,
        ) == state.possible_vals.inner@ && !has_empty_cell(state.possible_vals.inner@) ==> res
            is Some,
{
    let ghost cells0 = state.possible_vals.inner@;
    let ghost w = state.width as int;
    let ghost h = state.height as int;
    let ghost rs = rules.rules@;
    let mut cur = state;
    let ghost mut n: nat = 0;
    loop
        invariant
            cur.wf(),
            cur.width == state.width,
            cur.height == state.height,
            cur.curr_file_index == state.curr_file_index,
            rs == rules.rules@,
            cells0 == state.possible_vals.inner@,
            w == state.width as int,
            h == state.height as int,
            cells0.len() == w * h,
            cur.possible_vals.inner@ == prop_iter(cells0, w, h, rs, n),
            forall|i: int|
                0 <= i < cells0.len() ==> (#[trigger] cur.possible_vals.inner@[i]).spec_subset_of(
                    cells0[i],
                ),
            total_entropy(cur.possible_vals.inner@) <= total_entropy(cells0),
        decreases total_entropy(cur.possible_vals.inner@),
    {
        let e1 = cur.get_total_entropy();
        match apply_rules(&cur, rules) {
            None => {
                proof {
                    assert(has_empty_cell(prop_wave(cur.possible_vals.inner@, w, h, rs)));
                    assert(prop_iter(cells0, w, h, rs, n + 1) == prop_wave(
                        prop_iter(cells0, w, h, rs, n),
                        w,
                        h,
                        rs,
                    ));
                    assert(has_empty_cell(prop_iter(cells0, w, h, rs, n + 1)));
                    if prop_wave(cells0, w, h, rs) == cells0 && !has_empty_cell(cells0) {
                        assert(prop_iter(cells0, w, h, rs, 0) == cells0);
                        assert(prop_iter(cells0, w, h, rs, 1) == prop_wave(
                            prop_iter(cells0, w, h, rs, 0),
                            w,
                            h,
                            rs,
                        ));
                        lemma_fixpoint_persists(cells0, w, h, rs, 0, n + 1);
                        assert(false);
                    }
                }
                return None;
            },
            Some(next) => {
                let e2 = next.get_total_entropy();
                proof {
                    lemma_prop_wave_subset(cur.possible_vals.inner@, w, h, rs);
                    assert forall|j: int|
                        0 <= j < next.possible_vals.inner@.len() implies (
                    #[trigger] next.possible_vals.inner@[j]).spec_subset_of(
                        cur.possible_vals.inner@[j],
                    ) by {
                        assert(prop_wave(cur.possible_vals.inner@, w, h, rs)[j].spec_subset_of(
                            cur.possible_vals.inner@[j],
                        ));
                    }
                    lemma_total_from_le(next.possible_vals.inner@, cur.possible_vals.inner@, 0);
                }
                if e2 == e1 {
                    proof {
                        lemma_total_from_eq(next.possible_vals.inner@, cur.possible_vals.inner@);
                        assert(next.possible_vals.inner@ == cur.possible_vals.inner@);
                        assert(prop_wave(next.possible_vals.inner@, w, h, rs)
                            == next.possible_vals.inner@);
                        assert(prop_iter(cells0, w, h, rs, n + 1) == prop_wave(
                            prop_iter(cells0, w, h, rs, n),
                            w,
                            h,
                            rs,
                        ));
                        assert(next.possible_vals.inner@ == prop_iter(cells0, w, h, rs, n + 1));
                        assert forall|i: int|
                            0 <= i < cells0.len() implies (
                        #[trigger] next.possible_vals.inner@[i]).spec_subset_of(cells0[i]) by {
                            assert(next.possible_vals.inner@[i] == cur.possible_vals.inner@[i]);
                        }
                    }
                    return Some(next);
                }
                proof {
                    assert(prop_iter(cells0, w, h, rs, n + 1) == prop_wave(
                        prop_iter(cells0, w, h, rs, n),
                        w,
                        h,
                        rs,
                    ));
                    n = n + 1;
                    assert forall|i: int|
                        0 <= i < cells0.len() implies (
                    #[trigger] next.possible_vals.inner@[i]).spec_subset_of(cells0[i]) by {
                        assert(next.possible_vals.inner@[i].spec_subset_of(
                            cur.possible_vals.inner@[i],
                        ));
                        assert(cur.possible_vals.inner@[i].spec_subset_of(cells0[i]));
                    }
                }
                cur = next;
            },
        }
    }
}

/// Commits the cell `(x, y)` to one of its labels chosen at random and
/// propagates to a fixed point. On contradiction the wave is restored to
/// the snapshot taken before the commit and a different label is tried;
/// once every label of the cell has failed, the run is unsatisfiable from
/// here and `None` is returned. A successful commit strictly lowers the
/// wave's total entropy.
fn collapse_cell(state: &State, rules: &RuleSet, x: usize, y: usize, alpha: TileSet) -> (res:
    Option<State>)
    requires
        state.wf(),
        state.possible_vals.in_bounds(x as int, y as int),
        state.possible_vals.spec_cell(x as int, y as int).spec_len() >= 2,
        forall|i: int|
            0 <= i < state.possible_vals.inner@.len()
                ==> (#[trigger] state.possible_vals.inner@[i]).spec_subset_of(alpha),
    ensures
        res matches Some(s2) ==> s2.wf() && s2.width == state.width && s2.height == state.height
            && (forall|i: int|
            0 <= i < s2.possible_vals.inner@.len()
                ==> (#[trigger] s2.possible_vals.inner@[i]).spec_subset_of(alpha))
            && !has_empty_cell(s2.possible_vals.inner@) && total_entropy(s2.possible_vals.inner@)
            < total_entropy(state.possible_vals.inner@),
{
    let ghost w = state.width as int;
    let ghost h = state.height as int;
    let ghost idx0 = x as int * h + y as int;
    let mut untried = state.possible_vals.get(x, y);
    loop
        invariant
            state.wf(),
            state.possible_vals.in_bounds(x as int, y as int),
            state.possible_vals.spec_cell(x as int, y as int).spec_len() >= 2,
            forall|i: int|
                0 <= i < state.possible_vals.inner@.len()
                    ==> (#[trigger] state.possible_vals.inner@[i]).spec_subset_of(alpha),
            w == state.width as int,
            h == state.height as int,
            idx0 == x as int * h + y as int,
            untried.spec_subset_of(state.possible_vals.spec_cell(x as int, y as int)),
        decreases untried.spec_len(),
    {
        if untried.is_empty() {
            return None;
        }
        let choices = untried.members();
        let idx = random_below(choices.len());
        let t = choices[idx];
        untried = untried.remove(t);
        let mut candidate = state.duplicate();
        proof {
            assert(candidate.wf());
        }
        candidate.possible_vals.set(x, y, TileSet::empty().with(t));
        proof {
            lemma_grid_index(w, h, x as int, y as int);
            assert(candidate.possible_vals.inner@[idx0].spec_len() == 1);
            assert(state.possible_vals.inner@[idx0].spec_len() >= 2);
            assert forall|k: int|
                0 <= k < candidate.possible_vals.inner@.len() implies (
            #[trigger] candidate.possible_vals.inner@[k]).spec_subset_of(
                state.possible_vals.inner@[k],
            ) by {
                if k == idx0 {
                    assert(state.possible_vals.spec_cell(x as int, y as int).spec_contains(t));
                }
            }
            lemma_total_from_lt(
                candidate.possible_vals.inner@,
                state.possible_vals.inner@,
                0,
                idx0,
            );
        }
        match propagate_to_fixpoint(candidate, rules) {
            Some(next) => {
                proof {
                    assert forall|i: int|
                        0 <= i < next.possible_vals.inner@.len() implies (
                    #[trigger] next.possible_vals.inner@[i]).spec_subset_of(alpha) by {
                        assert(next.possible_vals.inner@[i].spec_subset_of(
                            candidate.possible_vals.inner@[i],
                        ));
                        assert(candidate.possible_vals.inner@[i].spec_subset_of(
                            state.possible_vals.inner@[i],
                        ));
                        assert(state.possible_vals.inner@[i].spec_subset_of(alpha));
                    }
                }
                return Some(next);
            },
            None => {},
        }
    }
}

/// The outer collapse loop: starting from a wave that admits the whole
/// alphabet everywhere, repeatedly picks the lowest-entropy undetermined
/// cell, commits it to a random label, propagates to a fixed point, and
/// retries from the snapshot on contradiction. Ends by decoding the wave;
/// yields `None` when some cell's choices are exhausted or the wave cannot
/// be decoded. Every label of a returned grid comes from the rule set's
/// alphabet.
pub fn generate_image(w: u32, h: u32, rules: &RuleSet) -> (res: Option<TileGrid>)
    requires
        3 * (w as int) * (h as int) <= usize::MAX as int,
    ensures
        res matches Some(g) ==> g.wf() && g.width == w as usize && g.height == h as usize
            && forall|x: int, y: int|
            g.in_bounds(x, y) ==> in_alphabet(rules.rules@, #[trigger] g.spec_cell(x, y)),
        (exists|t: Tile|
            in_alphabet(rules.rules@, t) && (forall|u: Tile| in_alphabet(rules.rules@, u) ==> u
                == t)) ==> res is Some,
        res is None ==> w > 0 && h > 0,
{
    let alpha = rules.alphabet();
    let wu = w as usize;
    let hu = h as usize;
    proof {
        assert(3 * (wu * hu) <= usize::MAX) by (nonlinear_arith)
            requires
                wu == w as int,
                hu == h as int,
                3 * (w as int) * (h as int) <= usize::MAX as int,
        ;
    }
    let mut state = State::new(wu, hu, &alpha);
    proof {
        if has_empty_cell(state.possible_vals.inner@) {
            let i = choose|i: int|
                0 <= i < state.possible_vals.inner@.len()
                    && state.possible_vals.inner@[i].spec_is_empty();
            assert(state.possible_vals.inner@[i] == alpha);
            assert(alpha.spec_is_empty());
        }
    }
    loop
        invariant
            state.wf(),
            state.width == wu,
            state.height == hu,
            wu == w as usize,
            hu == h as usize,
            forall|t: Tile| #[trigger] alpha.spec_contains(t) <==> in_alphabet(rules.rules@, t),
            forall|i: int|
                0 <= i < state.possible_vals.inner@.len()
                    ==> (#[trigger] state.possible_vals.inner@[i]).spec_subset_of(alpha),
            !alpha.spec_is_empty() ==> !has_empty_cell(state.possible_vals.inner@),
        decreases total_entropy(state.possible_vals.inner@),
    {
        match get_lowest_entropy_tile(&state.possible_vals) {
            None => {
                match get_image_from_possible_vals(&state) {
                    Some(g) => {
                        proof {
                            assert forall|x: int, y: int| g.in_bounds(x, y) implies in_alphabet(
                                rules.rules@,
                                #[trigger] g.spec_cell(x, y),
                            ) by {
                                lemma_grid_index(wu as int, hu as int, x, y);
                                assert(state.possible_vals.spec_cell(x, y).spec_contains(
                                    g.spec_cell(x, y),
                                ));
                                assert(state.possible_vals.inner@[x * hu + y].spec_subset_of(
                                    alpha,
                                ));
                                assert(alpha.spec_contains(g.spec_cell(x, y)));
                            }
                        }
                        return Some(g);
                    },
                    None => {
                        proof {
                            let (x, y) = choose|x: int, y: int|
                                state.possible_vals.in_bounds(x, y)
                                    && state.possible_vals.spec_cell(x, y).spec_len() != 1;
                            assert(wu > 0 && hu > 0);
                            if exists|t: Tile|
                                in_alphabet(rules.rules@, t) && (forall|u: Tile|
                                    in_alphabet(rules.rules@, u) ==> u == t) {
                                let t = choose|t: Tile|
                                    in_alphabet(rules.rules@, t) && (forall|u: Tile|
                                        in_alphabet(rules.rules@, u) ==> u == t);
                                assert(alpha.spec_contains(t));
                                lemma_grid_index(wu as int, hu as int, x, y);
                                assert(!state.possible_vals.inner@[x * hu + y].spec_is_empty());
                                assert(state.possible_vals.spec_cell(x, y).spec_len() >= 1);
                                assert(state.possible_vals.spec_cell(x, y).spec_len() <= 1);
                                assert(false);
                            }
                        }
                        return None;
                    },
                }
            },
            Some(c) => {
                match collapse_cell(&state, rules, c.0, c.1, alpha) {
                    None => {
                        proof {
                            assert(wu > 0 && hu > 0);
                            if exists|t: Tile|
                                in_alphabet(rules.rules@, t) && (forall|u: Tile|
                                    in_alphabet(rules.rules@, u) ==> u == t) {
                                let t = choose|t: Tile|
                                    in_alphabet(rules.rules@, t) && (forall|u: Tile|
                                        in_alphabet(rules.rules@, u) ==> u == t);
                                assert(alpha.spec_len() <= 1) by {
                                    if alpha.red {
                                        assert(alpha.spec_contains(Tile::Red));
                                        assert(Tile::Red == t);
                                    }
                                    if alpha.green {
                                        assert(alpha.spec_contains(Tile::Green));
                                        assert(Tile::Green == t);
                                    }
                                    if alpha.blue {
                                        assert(alpha.spec_contains(Tile::Blue));
                                        assert(Tile::Blue == t);
                                    }
                                }
                                lemma_grid_index(wu as int, hu as int, c.0 as int, c.1 as int);
                                assert(state.possible_vals.inner@[c.0 as int * hu
                                    + c.1 as int].spec_subset_of(alpha));
                                assert(state.possible_vals.spec_cell(
                                    c.0 as int,
                                    c.1 as int,
                                ).spec_len() <= 1);
                                assert(false);
                            }
                        }
                        return None;
                    },
                    Some(next) => {
                        state = next;
                    },
                }
            },
        }
    }
}

} // verus!
