//! Cells of a hexagonal grid in cube coordinates.

use crate::decimal::{decimal, push_decimal};
use vstd::prelude::*;
use vstd::string::*;
use vstd::wrapping::i32_specs::wrapping_add;

verus! {

/// The kind of a cell: `Empty` can be crossed, `Obstacle` cannot, and
/// `Start` and `End` mark the two ends of a route.
#[derive(Debug, Copy, Clone, PartialEq, Eq, Hash, Structural)]
pub enum HexType {
    Empty,
    Obstacle,
    Start,
    End,
}

/// Cube coordinates `(q, r, s)`.
pub type Coord = (i32, i32, i32);

/// A cell of a hexagonal grid, addressed by cube coordinates `(q, r, s)`.
///
/// Coordinates that come from a grid satisfy `q + r + s == 0`; the type
/// itself accepts any triple. Two cells are equal when their coordinates
/// are: the kind takes no part in `==`.
#[derive(Debug, Copy, Clone)]
pub struct Hex {
    pub q: i32,
    pub r: i32,
    pub s: i32,
    pub hex_type: HexType,
}

impl PartialEq for Hex {
    fn eq(&self, other: &Self) -> (res: bool) {
        self.q == other.q && self.r == other.r && self.s == other.s
    }
}

impl Eq for Hex {

}

impl vstd::std_specs::cmp::PartialEqSpecImpl for Hex {
    open spec fn obeys_eq_spec() -> bool {
        true
    }

    open spec fn eq_spec(&self, other: &Self) -> bool {
        self.q == other.q && self.r == other.r && self.s == other.s
    }
}

/// Half of `r`, rounded down: `(r - r mod 2) / 2`.
pub open spec fn half_floor(r: int) -> int {
    (r - r % 2) / 2
}

/// Half of `r`, rounded towards minus infinity.
pub fn half_down(r: i32) -> (h: i32)
    ensures
        h == half_floor(r as int),
{
    let low: i32 = r & 1;
    assert(low == r as int % 2) by (bit_vector)
        requires
            low == r & 1,
    ;
    (r - low) / 2
}

impl Hex {
    /// The coordinates of the cell.
    pub open spec fn coord(self) -> Coord {
        (self.q, self.r, self.s)
    }

    /// Whether two cells have the same coordinates, whatever their kinds.
    pub open spec fn same_place(self, other: Hex) -> bool {
        self.coord() == other.coord()
    }

    /// The offset pair `(row, column)` of the cell in the "odd-r" layout:
    /// the row is `r`, the column is `q + (r - r mod 2) / 2`, taken
    /// modulo 2^32 where it leaves the range of `i32`.
    pub open spec fn offset_coord(self) -> (i32, i32) {
        (self.r, wrapping_add(self.q, half_floor(self.r as int) as i32))
    }

    /// The text `Hex(q,r,s)` with the three coordinates in decimal.
    pub open spec fn rendered(self) -> Seq<char> {
        seq!['H', 'e', 'x', '('] + decimal(self.q as int) + seq![','] + decimal(self.r as int)
            + seq![','] + decimal(self.s as int) + seq![')']
    }

    /// Makes a cell from its coordinates and kind. The coordinates are
    /// taken as they are.
    pub fn new(q: i32, r: i32, s: i32, hex_type: HexType) -> (hex: Hex)
        ensures
            hex.q == q,
            hex.r == r,
            hex.s == s,
            hex.hex_type == hex_type,
    {
        Hex { q, r, s, hex_type }
    }

    /// Converts the cell to its offset pair `(row, column)`.
    pub fn to_offset_coord(&self) -> (offset: (i32, i32))
        ensures
            offset == self.offset_coord(),
            offset.0 == self.r,
            i32::MIN <= self.q + half_floor(self.r as int) <= i32::MAX ==> offset.1 == self.q
                + half_floor(self.r as int),
    {
        let row = self.r;
        let col = self.q.wrapping_add(half_down(self.r));
        (row, col)
    }

    /// Renders the cell as `Hex(q,r,s)`.
    pub fn to_string(&self) -> (text: String)
        ensures
            text@ == self.rendered(),
    {
        proof {
            reveal_strlit("Hex(");
            reveal_strlit(",");
            reveal_strlit(")");
        }
        let mut text = String::from_str("Hex(");
        assert(text@ =~= seq!['H', 'e', 'x', '(']);
        push_decimal(&mut text, self.q);
        text.append(",");
        push_decimal(&mut text, self.r);
        text.append(",");
        push_decimal(&mut text, self.s);
        text.append(")");
        assert(text@ =~= self.rendered());
        text
    }
}

} // verus!
