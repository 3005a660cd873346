//! The tile alphabet, its visual encoding, and the four grid directions.

use vstd::prelude::*;

verus! {

/// One value from the finite tile alphabet.
#[derive(Clone, Copy, Debug, PartialEq, Eq, Hash, Structural)]
pub enum Tile {
    Red,
    Green,
    Blue,
}

impl Tile {
    pub open spec fn spec_minify(self) -> char {
        match self {
            Tile::Red => 'R',
            Tile::Green => 'G',
            Tile::Blue => 'B',
        }
    }

    /// The single-character form of a label, used in textual dumps.
    pub fn minify(&self) -> (c: char)
        ensures
            c == self.spec_minify(),
    {
        match self {
            Tile::Red => 'R',
            Tile::Green => 'G',
            Tile::Blue => 'B',
        }
    }
}

pub open spec fn spec_tile_from_rgb(r: u8, g: u8, b: u8) -> Option<Tile> {
    if r == 255 && g == 0 && b == 0 {
        Some(Tile::Red)
    } else if r == 0 && g == 255 && b == 0 {
        Some(Tile::Green)
    } else if r == 0 && g == 0 && b == 255 {
        Some(Tile::Blue)
    } else {
        None
    }
}

pub open spec fn spec_tile_to_rgb(t: Tile) -> (u8, u8, u8) {
    match t {
        Tile::Red => (255u8, 0u8, 0u8),
        Tile::Green => (0u8, 255u8, 0u8),
        Tile::Blue => (0u8, 0u8, 255u8),
    }
}

/// Decodes a visual RGB encoding to its label; a color outside the
/// alphabet is an input-format error and yields `None`.
pub fn tile_from_rgb(r: u8, g: u8, b: u8) -> (t: Option<Tile>)
    ensures
        t == spec_tile_from_rgb(r, g, b),
{
    if r == 255 && g == 0 && b == 0 {
        Some(Tile::Red)
    } else if r == 0 && g == 255 && b == 0 {
        Some(Tile::Green)
    } else if r == 0 && g == 0 && b == 255 {
        Some(Tile::Blue)
    } else {
        None
    }
}

/// Encodes a label as its RGB color; decoding the result gives the label back.
pub fn tile_to_rgb(t: Tile) -> (rgb: (u8, u8, u8))
    ensures
        rgb == spec_tile_to_rgb(t),
        spec_tile_from_rgb(rgb.0, rgb.1, rgb.2) == Some(t),
{
    match t {
        Tile::Red => (255, 0, 0),
        Tile::Green => (0, 255, 0),
        Tile::Blue => (0, 0, 255),
    }
}

/// Maps a residue modulo three to a label; used when fabricating sample grids.
pub fn tile_of_index(n: u32) -> (t: Tile)
    ensures
        n % 3 == 0 ==> t == Tile::Red,
        n % 3 == 1 ==> t == Tile::Green,
        n % 3 == 2 ==> t == Tile::Blue,
{
    let r = n % 3;
    if r == 0 {
        Tile::Red
    } else if r == 1 {
        Tile::Green
    } else {
        Tile::Blue
    }
}

/// One of the four compass directions between adjacent cells.
#[derive(Clone, Copy, Debug, PartialEq, Eq, Hash, Structural)]
pub enum Direction {
    Up,
    Down,
    Left,
    Right,
}

impl Direction {
    /// Horizontal coordinate offset of the neighbor in this direction.
    pub open spec fn spec_dx(self) -> int {
        match self {
            Direction::Up => 0,
            Direction::Down => 0,
            Direction::Left => -1,
            Direction::Right => 1,
        }
    }

    /// Vertical coordinate offset of the neighbor in this direction;
    /// `Up` points toward smaller `y`.
    pub open spec fn spec_dy(self) -> int {
        match self {
            Direction::Up => -1,
            Direction::Down => 1,
            Direction::Left => 0,
            Direction::Right => 0,
        }
    }

    /// The `(dx, dy)` coordinate offset of this direction.
    pub fn offset(&self) -> (o: (i32, i32))
        ensures
            o.0 as int == self.spec_dx(),
            o.1 as int == self.spec_dy(),
    {
        match self {
            Direction::Up => (0, -1),
            Direction::Down => (0, 1),
            Direction::Left => (-1, 0),
            Direction::Right => (1, 0),
        }
    }
}

/// Whether `values` holds the label `t`.
pub fn tiles_include(values: &Vec<Tile>, t: Tile) -> (b: bool)
    ensures
        b == values@.contains(t),
{
    let mut i: usize = 0;
    while i < values.len()
        invariant
            i <= values.len(),
            forall|j: int| 0 <= j < i ==> values@[j] != t,
        decreases values.len() - i,
    {
        if values[i] == t {
            return true;
        }
        i = i + 1;
    }
    false
}

/// A set of labels: the possibilities still admissible at one cell.
#[derive(Clone, Copy, Debug, PartialEq, Eq, Hash, Structural)]
pub struct TileSet {
    pub red: bool,
    pub green: bool,
    pub blue: bool,
}

impl TileSet {
    pub open spec fn spec_contains(self, t: Tile) -> bool {
        match t {
            Tile::Red => self.red,
            Tile::Green => self.green,
            Tile::Blue => self.blue,
        }
    }

    /// How many labels the set holds; the cell's entropy.
    pub open spec fn spec_len(self) -> nat {
        (if self.red {
            1nat
        } else {
            0nat
        }) + (if self.green {
            1nat
        } else {
            0nat
        }) + (if self.blue {
            1nat
        } else {
            0nat
        })
    }

    pub open spec fn spec_is_empty(self) -> bool {
        !self.red && !self.green && !self.blue
    }

    pub open spec fn spec_subset_of(self, other: TileSet) -> bool {
        (self.red ==> other.red) && (self.green ==> other.green) && (self.blue ==> other.blue)
    }

    pub open spec fn spec_with(self, t: Tile) -> TileSet {
        match t {
            Tile::Red => TileSet { red: true, ..self },
            Tile::Green => TileSet { green: true, ..self },
            Tile::Blue => TileSet { blue: true, ..self },
        }
    }

    pub open spec fn spec_remove(self, t: Tile) -> TileSet {
        match t {
            Tile::Red => TileSet { red: false, ..self },
            Tile::Green => TileSet { green: false, ..self },
            Tile::Blue => TileSet { blue: false, ..self },
        }
    }

    /// The set's members in the fixed order red, green, blue.
    pub open spec fn spec_members(self) -> Seq<Tile> {
        (if self.red {
            seq![Tile::Red]
        } else {
            Seq::<Tile>::empty()
        }) + (if self.green {
            seq![Tile::Green]
        } else {
            Seq::<Tile>::empty()
        }) + (if self.blue {
            seq![Tile::Blue]
        } else {
            Seq::<Tile>::empty()
        })
    }

    /// The set with no labels.
    pub fn empty() -> (s: TileSet)
        ensures
            s.spec_is_empty(),
            s.spec_len() == 0,
            s == (TileSet { red: false, green: false, blue: false }),
    {
        TileSet { red: false, green: false, blue: false }
    }

    /// This set with one more label.
    pub fn with(self, t: Tile) -> (s: TileSet)
        ensures
            s == self.spec_with(t),
    {
        match t {
            Tile::Red => TileSet { red: true, ..self },
            Tile::Green => TileSet { green: true, ..self },
            Tile::Blue => TileSet { blue: true, ..self },
        }
    }

    /// This set with every label of `values` added.
    pub fn with_all(self, values: Vec<Tile>) -> (s: TileSet)
        ensures
            forall|t: Tile| #[trigger]
                s.spec_contains(t) == (self.spec_contains(t) || values@.contains(t)),
    {
        let r = tiles_include(&values, Tile::Red);
        let g = tiles_include(&values, Tile::Green);
        let b = tiles_include(&values, Tile::Blue);
        TileSet { red: self.red || r, green: self.green || g, blue: self.blue || b }
    }

    /// The set holding exactly the labels of `values`.
    pub fn from_all(values: Vec<Tile>) -> (s: TileSet)
        ensures
            forall|t: Tile| #[trigger] s.spec_contains(t) == values@.contains(t),
    {
        TileSet::empty().with_all(values)
    }

    /// Whether the set holds `t`.
    pub fn contains(&self, t: Tile) -> (b: bool)
        ensures
            b == self.spec_contains(t),
    {
        match t {
            Tile::Red => self.red,
            Tile::Green => self.green,
            Tile::Blue => self.blue,
        }
    }

    /// This set with `t` taken out.
    pub fn remove(self, t: Tile) -> (s: TileSet)
        ensures
            s == self.spec_remove(t),
    {
        match t {
            Tile::Red => TileSet { red: false, ..self },
            Tile::Green => TileSet { green: false, ..self },
            Tile::Blue => TileSet { blue: false, ..self },
        }
    }

    /// How many labels the set holds.
    pub fn len(&self) -> (n: usize)
        ensures
            n == self.spec_len(),
    {
        let mut n: usize = 0;
        if self.red {
            n = n + 1;
        }
        if self.green {
            n = n + 1;
        }
        if self.blue {
            n = n + 1;
        }
        n
    }

    /// Whether the set holds no label at all.
    pub fn is_empty(&self) -> (b: bool)
        ensures
            b == self.spec_is_empty(),
    {
        !self.red && !self.green && !self.blue
    }

    /// The members of the set, in the fixed order red, green, blue.
    pub fn members(&self) -> (v: Vec<Tile>)
        ensures
            v@ == self.spec_members(),
            v@.len() == self.spec_len(),
            forall|i: int| 0 <= i < v@.len() ==> self.spec_contains(#[trigger] v@[i]),
            forall|t: Tile| #[trigger] self.spec_contains(t) ==> v@.contains(t),
    {
        let mut v: Vec<Tile> = Vec::new();
        if self.red {
            v.push(Tile::Red);
        }
        if self.green {
            v.push(Tile::Green);
        }
        if self.blue {
            v.push(Tile::Blue);
        }
        proof {
            assert(v@ =~= self.spec_members());
            assert(forall|t: Tile| #[trigger] self.spec_contains(t) ==> v@.contains(t)) by {
                if self.red {
                    assert(v@[0] == Tile::Red);
                    assert(v@.contains(Tile::Red));
                }
                if self.green {
                    let i = if self.red {
                        1int
                    } else {
                        0int
                    };
                    assert(v@[i] == Tile::Green);
                    assert(v@.contains(Tile::Green));
                }
                if self.blue {
                    let i = v@.len() - 1;
                    assert(v@[i] == Tile::Blue);
                    assert(v@.contains(Tile::Blue));
                }
            }
        }
        v
    }
}

} // verus!
