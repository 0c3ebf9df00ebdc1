//! Shortest routes on hexagonal grids.
//!
//! A grid is described by rows of characters, one character for each cell:
//! `b` for an empty cell, `o` for an obstacle, `s` and `e` for the two ends
//! of the route. Rows and columns are offset coordinates in the "odd-r"
//! layout; the grid itself is kept in cube coordinates.

use algorithms::dijkstra::find_path;
use algorithms::hex::{half_down, half_floor, Hex, HexType};
use algorithms::hex_map::{Cells, HexMap};
use algorithms::search::found_route;
use algorithms::search_laws::{is_shortest_route, reachable};
use vstd::prelude::*;
use vstd::string::*;
use vstd::wrapping::i32_specs::wrapping_sub;

pub mod algorithms;
pub mod decimal;
pub mod grid_laws;

verus! {

/// The cell at the offset pair `(row, col)`: `q = col - (row - row mod 2) / 2`,
/// `r = row`, `s = -q - r`, each taken modulo 2^32 where it leaves the
/// range of `i32`.
pub open spec fn cube_of(row: i32, col: i32, hex_type: HexType) -> Hex {
    let q = wrapping_sub(col, half_floor(row as int) as i32);
    Hex { q, r: row, s: wrapping_sub(wrapping_sub(0, q), row), hex_type }
}

/// Converts the offset pair `(row, col)` to a cell of the given kind.
pub fn offset_to_hex(row: i32, col: i32, hex_type: HexType) -> (hex: Hex)
    ensures
        hex == cube_of(row, col, hex_type),
        hex.r == row,
        hex.hex_type == hex_type,
        i32::MIN <= col - half_floor(row as int) <= i32::MAX ==> hex.q == col - half_floor(
            row as int,
        ),
        i32::MIN <= col - half_floor(row as int) <= i32::MAX && i32::MIN <= -hex.q - row
            <= i32::MAX ==> hex.q + hex.r + hex.s == 0,
{
    let q = col.wrapping_sub(half_down(row));
    let r = row;
    let zero: i32 = 0;
    let s = zero.wrapping_sub(q).wrapping_sub(r);
    Hex::new(q, r, s, hex_type)
}

/// Converting an offset pair to a cell and the cell back to its offset
/// pair gives the pair back, for every row and column.
pub proof fn lemma_offset_round_trip(row: i32, col: i32, hex_type: HexType)
    ensures
        cube_of(row, col, hex_type).offset_coord() == (row, col),
{
}

/// Converting a cell with `q + r + s == 0` to its offset pair and the pair
/// back to a cell of the same kind gives the cell back.
pub proof fn lemma_cube_round_trip(hex: Hex)
    requires
        hex.q + hex.r + hex.s == 0,
    ensures
        cube_of(hex.offset_coord().0, hex.offset_coord().1, hex.hex_type) == hex,
{
}

/// The kind that a character of a grid description stands for.
pub open spec fn kind_of(c: char) -> Option<HexType> {
    if c == 'b' {
        Some(HexType::Empty)
    } else if c == 'o' {
        Some(HexType::Obstacle)
    } else if c == 's' {
        Some(HexType::Start)
    } else if c == 'e' {
        Some(HexType::End)
    } else {
        None
    }
}

/// Whether every character of the first `rows` rows of `graph` stands for
/// a kind.
pub open spec fn well_drawn_upto(graph: Seq<Seq<char>>, rows: int) -> bool {
    forall|row: int, col: int|
        0 <= row < rows && 0 <= col < graph[row].len() ==> (#[trigger] kind_of(
            graph[row][col],
        )) is Some
}

/// Whether every character of `graph` stands for a kind.
pub open spec fn well_drawn(graph: Seq<Seq<char>>) -> bool {
    well_drawn_upto(graph, graph.len() as int)
}

/// The cell that the character in row `row` and column `col` of `graph`
/// describes. Rows and columns count from 0 and are taken as `i32`.
pub open spec fn cell_of(graph: Seq<Seq<char>>, row: int, col: int) -> Hex {
    cube_of(row as i32, col as i32, kind_of(graph[row][col]).unwrap())
}

/// `cells` with the first `n` cells of row `row` of `graph` stored in it,
/// in the order of their columns.
pub open spec fn drawn_row(cells: Cells, graph: Seq<Seq<char>>, row: int, n: int) -> Cells
    decreases n,
{
    if n <= 0 {
        cells
    } else {
        let cell = cell_of(graph, row, n - 1);
        drawn_row(cells, graph, row, n - 1).insert((cell.q, cell.r), cell)
    }
}

/// The cells of the first `rows` rows of `graph`, stored row by row.
pub open spec fn drawn(graph: Seq<Seq<char>>, rows: int) -> Cells
    decreases rows,
{
    if rows <= 0 {
        Cells::empty()
    } else {
        drawn_row(drawn(graph, rows - 1), graph, rows - 1, graph[rows - 1].len() as int)
    }
}

/// The grid that `graph` describes: its cells stored row by row, a later
/// cell in place of an earlier one with the same `(q, r)`.
pub open spec fn grid_of(graph: Seq<Seq<char>>) -> Cells {
    drawn(graph, graph.len() as int)
}

/// Builds the grid that `graph` describes, or fails with
/// `"Invalid character in graph"` where a character is none of `b`, `o`,
/// `s` and `e`.
pub fn create_hex_map(graph: Vec<Vec<char>>) -> (res: Result<HexMap, &'static str>)
    ensures
        match res {
            Ok(hex_map) => well_drawn(graph.deep_view()) && hex_map@ == grid_of(
                graph.deep_view(),
            ),
            Err(message) => !well_drawn(graph.deep_view()) && message@
                == "Invalid character in graph"@,
        },
{
    let ghost rows = graph.deep_view();
    let mut hex_map = HexMap::new();
    let mut row: usize = 0;
    while row < graph.len()
        invariant
            rows == graph.deep_view(),
            0 <= row <= graph.len(),
            well_drawn_upto(rows, row as int),
            hex_map@ == drawn(rows, row as int),
        decreases graph.len() - row,
    {
        let row_vec = &graph[row];
        let mut col: usize = 0;
        while col < row_vec.len()
            invariant
                rows == graph.deep_view(),
                0 <= row < graph.len(),
                row_vec == graph@[row as int],
                0 <= col <= row_vec.len(),
                well_drawn_upto(rows, row as int),
                forall|c: int| 0 <= c < col ==> (#[trigger] kind_of(rows[row as int][c])) is Some,
                hex_map@ == drawn_row(drawn(rows, row as int), rows, row as int, col as int),
            decreases row_vec.len() - col,
        {
            let col_char = row_vec[col];
            assert(rows[row as int][col as int] == col_char);
            let hex_type = if col_char == 'b' {
                HexType::Empty
            } else if col_char == 'o' {
                HexType::Obstacle
            } else if col_char == 's' {
                HexType::Start
            } else if col_char == 'e' {
                HexType::End
            } else {
                assert(kind_of(rows[row as int][col as int]) is None);
                return Err("Invalid character in graph");
            };
            let hex = offset_to_hex(
                #[verifier::truncate]
                (row as i32),
                #[verifier::truncate]
                (col as i32),
                hex_type,
            );
            hex_map.add_hex(hex);
            col += 1;
        }
        assert(rows[row as int].len() == row_vec.len());
        row += 1;
    }
    Ok(hex_map)
}

/// The texts of the cells of `path`, in order.
pub open spec fn rendered_path(path: Seq<Hex>) -> Seq<Seq<char>> {
    path.map_values(|hex: Hex| hex.rendered())
}

/// The answer to a request. A grid description with a character that
/// stands for no kind is answered by `"Invalid character in graph"`; else a
/// request of another type than `"dijkstra"` by `"Invalid request type"`;
/// else the request is answered by the texts of the cells of the shortest
/// route from the target back to the source, or by `"No path found"` where
/// there is none.
pub open spec fn answer(
    request_type: Seq<char>,
    source: (i32, i32),
    target: (i32, i32),
    graph: Seq<Seq<char>>,
) -> Seq<Seq<char>> {
    if !well_drawn(graph) {
        seq!["Invalid character in graph"@]
    } else if request_type != "dijkstra"@ {
        seq!["Invalid request type"@]
    } else {
        match found_route(
            grid_of(graph),
            cube_of(source.0, source.1, HexType::Start),
            cube_of(target.0, target.1, HexType::End),
        ) {
            Some(path) => rendered_path(path),
            None => seq!["No path found"@],
        }
    }
}

/// Whether the route that the search finds from `source` to `target` is
/// right: it finds one exactly where a walk leads from `source` to
/// `target`, and the one it finds is as short as any such walk.
pub open spec fn finds_shortest(cells: Cells, source: Hex, target: Hex) -> bool {
    match found_route(cells, source, target) {
        Some(path) => is_shortest_route(cells, source, target, path),
        None => !reachable(cells, source, target),
    }
}

/// Answers a request for a route on the grid that `graph` describes, from
/// the offset pair `source` to the offset pair `target`, each a row and a
/// column.
pub fn handle_request(
    request_type: String,
    source: [i32; 2],
    target: [i32; 2],
    graph: Vec<Vec<char>>,
) -> (response: Vec<String>)
    ensures
        response.deep_view() == answer(
            request_type@,
            (source@[0], source@[1]),
            (target@[0], target@[1]),
            graph.deep_view(),
        ),
        well_drawn(graph.deep_view()) && request_type@ == "dijkstra"@ ==> finds_shortest(
            grid_of(graph.deep_view()),
            cube_of(source@[0], source@[1], HexType::Start),
            cube_of(target@[0], target@[1], HexType::End),
        ),
{
    let hex_map = create_hex_map(graph);
    match hex_map {
        Ok(hex_map) => {
            let source_hex = offset_to_hex(source[0], source[1], HexType::Start);
            let target_hex = offset_to_hex(target[0], target[1], HexType::End);
            let dijkstra = String::from_str("dijkstra");
            if request_type == dijkstra {
                let path = find_path(&hex_map, &source_hex, &target_hex);
                // convert the route to a vector of strings
                match path {
                    Ok(path) => {
                        let mut response: Vec<String> = Vec::new();
                        let mut i: usize = 0;
                        while i < path.len()
                            invariant
                                0 <= i <= path.len(),
                                response.deep_view() == rendered_path(path@.take(i as int)),
                            decreases path.len() - i,
                        {
                            let text = path[i].to_string();
                            let ghost before = response.deep_view();
                            response.push(text);
                            proof {
                                assert(path@.take(i + 1) =~= path@.take(i as int).push(
                                    path@[i as int],
                                ));
                                assert(response.deep_view() =~= before.push(text@));
                                assert(response.deep_view() =~= rendered_path(
                                    path@.take(i + 1),
                                ));
                            }
                            i += 1;
                        }
                        assert(path@.take(path.len() as int) =~= path@);
                        response
                    },
                    Err(err) => single(err),
                }
            } else {
                single("Invalid request type")
            }
        },
        Err(err) => single(err),
    }
}

/// A response of one text.
fn single(text: &str) -> (response: Vec<String>)
    ensures
        response.deep_view() == seq![text@],
{
    let mut response: Vec<String> = Vec::new();
    response.push(String::from_str(text));
    assert(response.deep_view() =~= seq![text@]);
    response
}

} // verus!
