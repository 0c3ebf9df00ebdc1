//! A sparse hexagonal grid and the neighbors of a cell in it.

use super::cell_table::CellTable;
use super::hex::{Hex, HexType};
use vstd::prelude::*;

verus! {

/// The cells of a grid: a finite map from the axial pair `(q, r)` to the
/// record stored there.
pub type Cells = Map<(i32, i32), Hex>;

/// Every record is stored under its own `(q, r)`, and there are finitely
/// many records.
pub open spec fn well_keyed(cells: Cells) -> bool {
    &&& cells.dom().finite()
    &&& forall|q: i32, r: i32| #[trigger]
        cells.contains_key((q, r)) ==> cells[(q, r)].q == q && cells[(q, r)].r == r
}

/// The six steps from a cell to an adjacent one, as changes of
/// `(q, r, s)`, in the order in which neighbors are listed.
pub open spec fn direction(i: int) -> (int, int, int) {
    if i == 0 {
        (1, 0, -1)
    } else if i == 1 {
        (1, -1, 0)
    } else if i == 2 {
        (0, -1, 1)
    } else if i == 3 {
        (-1, 0, 1)
    } else if i == 4 {
        (-1, 1, 0)
    } else {
        (0, 1, -1)
    }
}

/// The cell that one step in direction `i` from `hex` reaches: the record
/// stored under the stepped `(q, r)`, provided that its `s` is the stepped
/// `s` and that it is no obstacle. Coordinates outside the range of `i32`
/// lie outside every grid.
pub open spec fn step(cells: Cells, hex: Hex, i: int) -> Option<Hex> {
    let q = hex.q + direction(i).0;
    let r = hex.r + direction(i).1;
    let s = hex.s + direction(i).2;
    if i32::MIN <= q <= i32::MAX && i32::MIN <= r <= i32::MAX && cells.contains_key(
        (q as i32, r as i32),
    ) && cells[(q as i32, r as i32)].s == s && cells[(q as i32, r as i32)].hex_type
        != HexType::Obstacle {
        Some(cells[(q as i32, r as i32)])
    } else {
        None
    }
}

/// The cells reached from `hex` by the first `n` directions, in order.
pub open spec fn neighbors_upto(cells: Cells, hex: Hex, n: int) -> Seq<Hex>
    decreases n,
{
    if n <= 0 {
        Seq::empty()
    } else {
        match step(cells, hex, n - 1) {
            Some(cell) => neighbors_upto(cells, hex, n - 1).push(cell),
            None => neighbors_upto(cells, hex, n - 1),
        }
    }
}

/// The neighbors of `hex`: the cells reached by the six directions, in
/// the order of the directions.
pub open spec fn neighbors(cells: Cells, hex: Hex) -> Seq<Hex> {
    neighbors_upto(cells, hex, 6)
}

/// Whether one step from `from` reaches exactly the record `to`.
pub open spec fn adjacent(cells: Cells, from: Hex, to: Hex) -> bool {
    exists|i: int| 0 <= i < 6 && #[trigger] step(cells, from, i) == Some(to)
}

/// The neighbors listed are the cells reached by some direction, each
/// direction at most once.
pub proof fn lemma_neighbors_upto(cells: Cells, hex: Hex, n: int)
    requires
        0 <= n <= 6,
    ensures
        neighbors_upto(cells, hex, n).len() <= n,
        forall|k: int|
            0 <= k < neighbors_upto(cells, hex, n).len() ==> exists|i: int|
                0 <= i < n && #[trigger] step(cells, hex, i) == Some(
                    #[trigger] neighbors_upto(cells, hex, n)[k],
                ),
        forall|i: int|
            0 <= i < n && (#[trigger] step(cells, hex, i)) is Some ==> neighbors_upto(
                cells,
                hex,
                n,
            ).contains(step(cells, hex, i).unwrap()),
    decreases n,
{
    if n > 0 {
        lemma_neighbors_upto(cells, hex, n - 1);
        let before = neighbors_upto(cells, hex, n - 1);
        let all = neighbors_upto(cells, hex, n);
        assert forall|i: int| 0 <= i < n && (#[trigger] step(cells, hex, i)) is Some implies all.contains(
            step(cells, hex, i).unwrap(),
        ) by {
            if i == n - 1 {
                assert(all[all.len() - 1] == step(cells, hex, i).unwrap());
            } else {
                let k = choose|k: int|
                    0 <= k < before.len() && before[k] == step(cells, hex, i).unwrap();
                assert(all[k] == before[k]);
            }
        }
    }
}

/// A cell is listed among the neighbors of `hex` exactly when it is
/// adjacent to `hex`; no listed cell is an obstacle, and in a well-keyed
/// grid each is the record stored under its own `(q, r)`.
pub proof fn lemma_neighbors(cells: Cells, hex: Hex)
    ensures
        neighbors(cells, hex).len() <= 6,
        forall|cell: Hex| #[trigger]
            neighbors(cells, hex).contains(cell) <==> adjacent(cells, hex, cell),
        forall|cell: Hex| #[trigger]
            neighbors(cells, hex).contains(cell) ==> cell.hex_type != HexType::Obstacle,
        well_keyed(cells) ==> forall|cell: Hex| #[trigger]
            neighbors(cells, hex).contains(cell) ==> cells.contains_key((cell.q, cell.r))
                && cells[(cell.q, cell.r)] == cell,
{
    lemma_neighbors_upto(cells, hex, 6);
    let all = neighbors(cells, hex);
    assert forall|cell: Hex| #[trigger] all.contains(cell) implies adjacent(cells, hex, cell) by {
        let k = choose|k: int| 0 <= k < all.len() && all[k] == cell;
        let i = choose|i: int| 0 <= i < 6 && #[trigger] step(cells, hex, i) == Some(all[k]);
        assert(step(cells, hex, i) == Some(cell));
    }
}

/// A hexagonal grid that stores only the cells it was given.
pub struct HexMap {
    /// The records, each under the pair `(q, r)` of its own coordinates.
    map: CellTable<Hex>,
}

impl View for HexMap {
    type V = Cells;

    closed spec fn view(&self) -> Cells {
        self.map@
    }
}

impl HexMap {
    /// What holds of every grid: see [`well_keyed`].
    #[verifier::type_invariant]
    pub open spec fn well_formed(&self) -> bool {
        well_keyed(self@)
    }

    /// Makes a grid without cells.
    pub fn new() -> (grid: HexMap)
        ensures
            grid@ == Cells::empty(),
    {
        let grid = HexMap { map: CellTable::new() };
        assert(grid@.dom() =~= Set::<(i32, i32)>::empty());
        grid
    }

    /// Stores `hex` under its `(q, r)`; a record already stored there is
    /// replaced.
    pub fn add_hex(&mut self, hex: Hex)
        ensures
            final(self)@ == old(self)@.insert((hex.q, hex.r), hex),
            well_keyed(final(self)@),
    {
        proof {
            use_type_invariant(&*self);
        }
        let mut table = CellTable::new();
        std::mem::swap(&mut table, &mut self.map);
        table.insert(hex.q, hex.r, hex);
        self.map = table;
    }

    /// The record stored under `(q, r)`, if there is one.
    pub fn get_hex(&self, q: i32, r: i32) -> (found: Option<&Hex>)
        ensures
            found == (if self@.contains_key((q, r)) {
                Some(&self@[(q, r)])
            } else {
                None
            }),
            found matches Some(hex) ==> hex.q == q && hex.r == r,
    {
        proof {
            use_type_invariant(self);
        }
        self.map.get(q, r)
    }

    /// The number of cells, counted by their `(q, r)`.
    pub fn size(&self) -> (count: usize)
        ensures
            count == self@.len(),
            well_keyed(self@),
    {
        proof {
            use_type_invariant(self);
        }
        self.map.len()
    }

    /// The neighbors of `hex` in the grid: for each of the six directions
    /// in turn, the record stored at the stepped `(q, r)`, if its `s` is
    /// the stepped `s` and it is no obstacle.
    pub fn get_neighbors(&self, hex: &Hex) -> (found: Vec<&Hex>)
        ensures
            found@.map_values(|cell: &Hex| *cell) == neighbors(self@, *hex),
            found@.len() <= 6,
            forall|k: int|
                0 <= k < found@.len() ==> (#[trigger] found@[k]).hex_type != HexType::Obstacle
                    && adjacent(self@, *hex, *found@[k]),
    {
        let mut found: Vec<&Hex> = Vec::new();
        let hex_direction_vectors: [(i32, i32, i32); 6] = [
            (1, 0, -1),
            (1, -1, 0),
            (0, -1, 1),
            (-1, 0, 1),
            (-1, 1, 0),
            (0, 1, -1),
        ];
        let mut i: usize = 0;
        while i < 6
            invariant
                0 <= i <= 6,
                forall|k: int|
                    0 <= k < 6 ==> (#[trigger] hex_direction_vectors@[k]).0 == direction(k).0
                        && hex_direction_vectors@[k].1 == direction(k).1
                        && hex_direction_vectors@[k].2 == direction(k).2,
                found@.map_values(|cell: &Hex| *cell) == neighbors_upto(self@, *hex, i as int),
            decreases 6 - i,
        {
            let direction_vector = hex_direction_vectors[i];
            let ghost before = found@;
            let neighbor_q = hex.q.checked_add(direction_vector.0);
            let neighbor_r = hex.r.checked_add(direction_vector.1);
            let neighbor_s = hex.s.checked_add(direction_vector.2);
            if let (Some(q), Some(r), Some(s)) = (neighbor_q, neighbor_r, neighbor_s) {
                if let Some(neighbor_hex) = self.get_hex(q, r) {
                    if neighbor_hex.s == s && neighbor_hex.hex_type != HexType::Obstacle {
                        found.push(neighbor_hex);
                        assert(found@.map_values(|cell: &Hex| *cell) =~= before.map_values(
                            |cell: &Hex| *cell,
                        ).push(*neighbor_hex));
                    }
                }
            }
            i += 1;
        }
        proof {
            lemma_neighbors(self@, *hex);
            let all = neighbors(self@, *hex);
            let plain = found@.map_values(|cell: &Hex| *cell);
            assert forall|k: int| 0 <= k < found@.len() implies (#[trigger] found@[k]).hex_type
                != HexType::Obstacle && adjacent(self@, *hex, *found@[k]) by {
                assert(plain[k] == *found@[k]);
                assert(all.contains(plain[k]));
            }
        }
        found
    }
}

} // verus!
