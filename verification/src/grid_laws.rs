//! What the grid of a description holds, cell by cell, and how many
//! neighbors a cell of a rectangular grid has.

use crate::algorithms::hex::{half_floor, Hex, HexType};
use crate::algorithms::hex_map::{direction, neighbors, neighbors_upto, step, well_keyed, Cells};
use crate::{cell_of, drawn, drawn_row, grid_of, kind_of, well_drawn};
use vstd::prelude::*;

verus! {

/// The most rows, and the most cells in a row, for which no coordinate of
/// a cell leaves the range of `i32`.
pub open spec fn max_side() -> int {
    0x4000_0000
}

/// Whether `graph` has at most `max_side()` rows of at most `max_side()`
/// characters each.
pub open spec fn fits(graph: Seq<Seq<char>>) -> bool {
    &&& graph.len() <= max_side()
    &&& forall|row: int| 0 <= row < graph.len() ==> (#[trigger] graph[row]).len() <= max_side()
}

/// Whether row `row` of `graph` has a column `col`.
pub open spec fn in_graph(graph: Seq<Seq<char>>, row: int, col: int) -> bool {
    0 <= row < graph.len() && 0 <= col < graph[row].len()
}

/// The cell in row `row` and column `col`, written out: `q` is the column
/// less half the row, rounded down, `r` is the row, and the three
/// coordinates add up to 0.
pub open spec fn plain_cell(graph: Seq<Seq<char>>, row: int, col: int) -> Hex {
    Hex {
        q: (col - half_floor(row)) as i32,
        r: row as i32,
        s: (half_floor(row) - col - row) as i32,
        hex_type: kind_of(graph[row][col]).unwrap(),
    }
}

/// Whether `cells` holds, of the rows before `row` and the first `n` cells
/// of row `row`, each cell under its own `(q, r)`, and nothing else.
pub open spec fn holds_upto(cells: Cells, graph: Seq<Seq<char>>, row: int, n: int) -> bool {
    forall|q: i32, r: i32| #[trigger]
        cells.contains_key((q, r)) == (in_graph(graph, r as int, q + half_floor(r as int)) && (r
            < row || (r == row && q + half_floor(r as int) < n))) && (cells.contains_key((q, r))
            ==> cells[(q, r)] == plain_cell(graph, r as int, q + half_floor(r as int)))
}

/// The first `n` cells of a row are stored beside what was stored before.
proof fn lemma_drawn_row(cells: Cells, graph: Seq<Seq<char>>, row: int, n: int)
    requires
        fits(graph),
        0 <= row < graph.len(),
        0 <= n <= graph[row].len(),
        holds_upto(cells, graph, row, 0),
        cells.dom().finite(),
    ensures
        holds_upto(drawn_row(cells, graph, row, n), graph, row, n),
        drawn_row(cells, graph, row, n).dom().finite(),
    decreases n,
{
    if n > 0 {
        lemma_drawn_row(cells, graph, row, n - 1);
        let before = drawn_row(cells, graph, row, n - 1);
        let after = drawn_row(cells, graph, row, n);
        let cell = cell_of(graph, row, n - 1);
        assert(cell == plain_cell(graph, row, n - 1));
        assert(after == before.insert((cell.q, cell.r), cell));
        assert forall|q: i32, r: i32| #[trigger]
            after.contains_key((q, r)) == (in_graph(graph, r as int, q + half_floor(r as int)) && (
            r < row || (r == row && q + half_floor(r as int) < n))) && (after.contains_key((q, r))
                ==> after[(q, r)] == plain_cell(graph, r as int, q + half_floor(r as int))) by {
            assert(before.contains_key((q, r)) == (in_graph(
                graph,
                r as int,
                q + half_floor(r as int),
            ) && (r < row || (r == row && q + half_floor(r as int) < n - 1))));
        }
    }
}

/// The cells of the first `rows` rows are stored each under its own
/// `(q, r)`.
proof fn lemma_drawn(graph: Seq<Seq<char>>, rows: int)
    requires
        fits(graph),
        0 <= rows <= graph.len(),
    ensures
        holds_upto(drawn(graph, rows), graph, rows, 0),
        drawn(graph, rows).dom().finite(),
    decreases rows,
{
    if rows > 0 {
        lemma_drawn(graph, rows - 1);
        let before = drawn(graph, rows - 1);
        lemma_drawn_row(before, graph, rows - 1, graph[rows - 1].len() as int);
        let after = drawn(graph, rows);
        assert forall|q: i32, r: i32| #[trigger]
            after.contains_key((q, r)) == (in_graph(graph, r as int, q + half_floor(r as int)) && (
            r < rows || (r == rows && q + half_floor(r as int) < 0))) && (after.contains_key(
                (q, r),
            ) ==> after[(q, r)] == plain_cell(graph, r as int, q + half_floor(r as int))) by {
            assert(after.contains_key((q, r)) == (in_graph(
                graph,
                r as int,
                q + half_floor(r as int),
            ) && (r < rows - 1 || (r == rows - 1 && q + half_floor(r as int) < graph[rows
                - 1].len()))));
        }
    }
}

/// The grid of a description holds the cell of every row and column under
/// its own `(q, r)`, and nothing else: no cell takes the place of another.
pub proof fn lemma_grid_of(graph: Seq<Seq<char>>)
    requires
        fits(graph),
    ensures
        well_keyed(grid_of(graph)),
        forall|row: int, col: int|
            in_graph(graph, row, col) ==> grid_of(graph).contains_key(
                (#[trigger] plain_cell(graph, row, col).q, row as i32),
            ) && grid_of(graph)[(plain_cell(graph, row, col).q, row as i32)] == plain_cell(
                graph,
                row,
                col,
            ),
        forall|q: i32, r: i32| #[trigger]
            grid_of(graph).contains_key((q, r)) ==> in_graph(
                graph,
                r as int,
                q + half_floor(r as int),
            ),
{
    lemma_drawn(graph, graph.len() as int);
    let cells = grid_of(graph);
    assert forall|row: int, col: int| in_graph(graph, row, col) implies cells.contains_key(
        (#[trigger] plain_cell(graph, row, col).q, row as i32),
    ) && cells[(plain_cell(graph, row, col).q, row as i32)] == plain_cell(graph, row, col) by {
        let q = plain_cell(graph, row, col).q;
        assert(cells.contains_key((q, row as i32)) == (in_graph(
            graph,
            row,
            q + half_floor(row),
        )));
    }
}

/// The row and column that direction `i` leads to from row `row` and
/// column `col`.
pub open spec fn beside(row: int, col: int, i: int) -> (int, int) {
    let to = row + direction(i).1;
    (to, col + direction(i).0 + half_floor(to) - half_floor(row))
}

/// Whether direction `i` leads from row `row` and column `col` of `graph`
/// to a cell of `graph` that is no obstacle.
pub open spec fn open_beside(graph: Seq<Seq<char>>, row: int, col: int, i: int) -> bool {
    in_graph(graph, beside(row, col, i).0, beside(row, col, i).1) && kind_of(
        graph[beside(row, col, i).0][beside(row, col, i).1],
    ) != Some(HexType::Obstacle)
}

/// One step from a cell of the grid of a description reaches the cell in
/// the row and column beside it, where the description has one and it is
/// no obstacle, and nothing otherwise.
pub proof fn lemma_step_beside(graph: Seq<Seq<char>>, row: int, col: int, i: int)
    requires
        fits(graph),
        well_drawn(graph),
        in_graph(graph, row, col),
        0 <= i < 6,
    ensures
        step(grid_of(graph), plain_cell(graph, row, col), i) == (if open_beside(
            graph,
            row,
            col,
            i,
        ) {
            Some(plain_cell(graph, beside(row, col, i).0, beside(row, col, i).1))
        } else {
            None
        }),
{
    lemma_grid_of(graph);
    let cells = grid_of(graph);
    let from = plain_cell(graph, row, col);
    let (to_row, to_col) = beside(row, col, i);
    let q = from.q + direction(i).0;
    let r = from.r + direction(i).1;
    if in_graph(graph, to_row, to_col) {
        assert(kind_of(graph[to_row][to_col]) is Some);
        let to = plain_cell(graph, to_row, to_col);
        assert(to.q == q && to.r == r);
        assert(cells.contains_key((to.q, to_row as i32)));
    } else if i32::MIN <= q <= i32::MAX && i32::MIN <= r <= i32::MAX {
        if cells.contains_key((q as i32, r as i32)) {
            assert(in_graph(graph, r, q + half_floor(r)));
        }
    }
}

/// How many of the first `n` directions lead from row `row` and column
/// `col` of `graph` to a cell of `graph` that is no obstacle.
pub open spec fn open_sides(graph: Seq<Seq<char>>, row: int, col: int, n: int) -> int
    decreases n,
{
    if n <= 0 {
        0
    } else if open_beside(graph, row, col, n - 1) {
        open_sides(graph, row, col, n - 1) + 1
    } else {
        open_sides(graph, row, col, n - 1)
    }
}

/// A cell of the grid of a description has as many neighbors as it has
/// open sides.
pub proof fn lemma_neighbor_count(graph: Seq<Seq<char>>, row: int, col: int, n: int)
    requires
        fits(graph),
        well_drawn(graph),
        in_graph(graph, row, col),
        0 <= n <= 6,
    ensures
        neighbors_upto(grid_of(graph), plain_cell(graph, row, col), n).len() == open_sides(
            graph,
            row,
            col,
            n,
        ),
    decreases n,
{
    if n > 0 {
        lemma_neighbor_count(graph, row, col, n - 1);
        lemma_step_beside(graph, row, col, n - 1);
    }
}

/// Whether every row of `graph` has `width` characters, none of which
/// stands for an obstacle.
pub open spec fn open_rectangle(graph: Seq<Seq<char>>, width: int) -> bool {
    forall|row: int, col: int|
        0 <= row < graph.len() ==> (#[trigger] graph[row]).len() == width && (0 <= col < width
            ==> #[trigger] kind_of(graph[row][col]) != Some(HexType::Obstacle))
}

/// In a rectangular grid without obstacles, a cell that lies neither in
/// the first or last row nor in the first or last column has six neighbors.
pub proof fn lemma_interior_neighbors(graph: Seq<Seq<char>>, width: int, row: int, col: int)
    requires
        fits(graph),
        well_drawn(graph),
        open_rectangle(graph, width),
        0 < row < graph.len() - 1,
        0 < col < width - 1,
    ensures
        neighbors(grid_of(graph), plain_cell(graph, row, col)).len() == 6,
{
    assert(graph[row].len() == width);
    lemma_neighbor_count(graph, row, col, 6);
    reveal_with_fuel(open_sides, 7);
    assert forall|i: int| 0 <= i < 6 implies open_beside(graph, row, col, i) by {
        let (to_row, to_col) = beside(row, col, i);
        assert(graph[to_row].len() == width);
        assert(kind_of(graph[to_row][to_col]) != Some(HexType::Obstacle));
    }
}

/// Whether row `row` and column `col` mark a corner of a rectangle of
/// `height` rows and `width` columns at which a row juts out: the end of
/// the first row, the end of the last row where that row is even, or the
/// start of the last row where it is odd.
pub open spec fn jutting_corner(height: int, width: int, row: int, col: int) -> bool {
    ||| row == 0 && col == width - 1
    ||| row == height - 1 && row % 2 == 0 && col == width - 1
    ||| row == height - 1 && row % 2 == 1 && col == 0
}

/// Whether row `row` and column `col` mark a corner of a rectangle at
/// which a row is set back: the start of the first row, the start of the
/// last row where that row is even, or the end of the last row where it is
/// odd.
pub open spec fn set_back_corner(height: int, width: int, row: int, col: int) -> bool {
    ||| row == 0 && col == 0
    ||| row == height - 1 && row % 2 == 0 && col == 0
    ||| row == height - 1 && row % 2 == 1 && col == width - 1
}

/// In a rectangular grid without obstacles, of two rows and two columns at
/// the least, a cell in a corner has three neighbors where its row juts out
/// and two where its row is set back.
pub proof fn lemma_corner_neighbors(graph: Seq<Seq<char>>, width: int, row: int, col: int)
    requires
        fits(graph),
        well_drawn(graph),
        open_rectangle(graph, width),
        graph.len() >= 2,
        width >= 2,
    ensures
        jutting_corner(graph.len() as int, width, row, col) ==> neighbors(
            grid_of(graph),
            plain_cell(graph, row, col),
        ).len() == 3,
        set_back_corner(graph.len() as int, width, row, col) ==> neighbors(
            grid_of(graph),
            plain_cell(graph, row, col),
        ).len() == 2,
{
    let height = graph.len() as int;
    if jutting_corner(height, width, row, col) || set_back_corner(height, width, row, col) {
        assert(graph[row].len() == width);
        lemma_neighbor_count(graph, row, col, 6);
        reveal_with_fuel(open_sides, 7);
        assert forall|i: int| 0 <= i < 6 implies open_beside(graph, row, col, i) == (0
            <= beside(row, col, i).0 < height && 0 <= beside(row, col, i).1 < width) by {
            let (to_row, to_col) = beside(row, col, i);
            if 0 <= to_row < height {
                assert(graph[to_row].len() == width);
                if 0 <= to_col < width {
                    assert(kind_of(graph[to_row][to_col]) != Some(HexType::Obstacle));
                }
            }
        }
        assert(open_beside(graph, row, col, 0) == (0 <= beside(row, col, 0).0 < height && 0
            <= beside(row, col, 0).1 < width));
        assert(open_beside(graph, row, col, 1) == (0 <= beside(row, col, 1).0 < height && 0
            <= beside(row, col, 1).1 < width));
        assert(open_beside(graph, row, col, 2) == (0 <= beside(row, col, 2).0 < height && 0
            <= beside(row, col, 2).1 < width));
        assert(open_beside(graph, row, col, 3) == (0 <= beside(row, col, 3).0 < height && 0
            <= beside(row, col, 3).1 < width));
        assert(open_beside(graph, row, col, 4) == (0 <= beside(row, col, 4).0 < height && 0
            <= beside(row, col, 4).1 < width));
        assert(open_beside(graph, row, col, 5) == (0 <= beside(row, col, 5).0 < height && 0
            <= beside(row, col, 5).1 < width));
    }
}

} // verus!
