//! Shortest routes on a hexagonal grid by Dijkstra's algorithm with every
//! step at cost 1.

use super::coord_table::CoordTable;
use super::frontier::{Frontier, Visit};
use super::hex::{Coord, Hex};
use super::hex_map::{neighbors, well_keyed, Cells, HexMap};
use super::search::{
    advanced, exhausted, found_route, lemma_explored, relaxed_all, search_after, started, traced,
    SearchState,
};
use super::search_laws::{
    is_shortest_route, lemma_advanced, lemma_finished, lemma_places, lemma_started, places,
    reachable, recorded_well, sound,
};
use vstd::prelude::*;
use vstd::set_lib::lemma_len_subset;

verus! {

/// Every recorded parent lies nearer than its child.
pub open spec fn ranked(parents: Map<Coord, Option<Hex>>, distances: Map<Coord, usize>) -> bool {
    forall|at: Coord| #[trigger]
        parents.contains_key(at) && parents[at] is Some ==> distances[parents[at].unwrap().coord()]
            < distances[at]
}

/// Whether `res` is the outcome of the search for a route from `source` to
/// `target` in `cells`: the route that the search finds, or the error
/// `"No path found"` where it finds none.
pub open spec fn is_outcome(
    cells: Cells,
    source: Hex,
    target: Hex,
    res: Result<Vec<Hex>, &'static str>,
) -> bool {
    match res {
        Ok(path) => found_route(cells, source, target) == Some(path@),
        Err(message) => found_route(cells, source, target) is None && message@
            == "No path found"@,
    }
}

/// Two outcomes of the search for a route in the same cells, from the
/// same source to the same target, are the same: both are routes of the
/// same cells in the same order, or both are the same error.
pub proof fn lemma_outcome_unique(
    cells: Cells,
    source: Hex,
    target: Hex,
    first: Result<Vec<Hex>, &'static str>,
    second: Result<Vec<Hex>, &'static str>,
)
    requires
        is_outcome(cells, source, target, first),
        is_outcome(cells, source, target, second),
    ensures
        first is Ok <==> second is Ok,
        first is Ok ==> first.unwrap()@ == second.unwrap()@,
        first is Err ==> first.unwrap_err()@ == second.unwrap_err()@,
{
}

/// Returns the shortest route from `source` to `target` in `hex_map`, the
/// cells in order from `target` back to `source`, or the error
/// `"No path found"` where no walk leads from one to the other.
///
/// A walk steps from a cell to one of its neighbors, so it never enters an
/// obstacle and never leaves the grid. Cells are told apart by their
/// coordinates. Of several shortest routes the one returned is the one
/// that the search comes upon first: see [`found_route`].
pub fn find_path(hex_map: &HexMap, source: &Hex, target: &Hex) -> (res: Result<
    Vec<Hex>,
    &'static str,
>)
    ensures
        is_outcome(hex_map@, *source, *target, res),
        exists|pops: nat| exhausted(hex_map@, *source, pops),
        res is Ok <==> reachable(hex_map@, *source, *target),
        res matches Ok(path) ==> is_shortest_route(hex_map@, *source, *target, path@),
{
    // the distance from the source to each cell discovered
    let mut distances: CoordTable<usize> = CoordTable::new();

    // the cells that have been visited
    let mut visited: CoordTable<()> = CoordTable::new();

    // the cells that wait to be visited, in a heap
    let mut to_visit = Frontier::new();

    // the parent of each cell, to reconstruct the route by backtracking
    let mut parent: CoordTable<Option<Hex>> = CoordTable::new();

    let source_at = (source.q, source.r, source.s);
    distances.insert(source_at, 0);
    parent.insert(source_at, None);
    to_visit.push(Visit { vertex: *source, distance: 0 });

    // the grid is unweighted: moving from one cell to the next costs 1
    let cost: usize = 1;

    let ghost cells = hex_map@;
    let ghost mut pops: nat = 0;
    proof {
        use_type_invariant(hex_map);
        lemma_started(cells, *source);
        lemma_places(cells, *source);
        assert(visited@.dom() =~= started(*source).visited);
    }
    loop
        invariant_except_break
            cells == hex_map@,
            well_keyed(cells),
            cost == 1,
            distances@ == search_after(cells, *source, pops).distances,
            parent@ == search_after(cells, *source, pops).parents,
            visited@.dom() == search_after(cells, *source, pops).visited,
            to_visit@ == search_after(cells, *source, pops).frontier,
            sound(cells, *source, search_after(cells, *source, pops)),
            visited@.dom().finite(),
            visited@.len() <= usize::MAX,
            places(cells, *source).finite(),
        ensures
            cells == hex_map@,
            well_keyed(cells),
            distances@ == search_after(cells, *source, pops).distances,
            parent@ == search_after(cells, *source, pops).parents,
            sound(cells, *source, search_after(cells, *source, pops)),
            exhausted(cells, *source, pops),
        decreases places(cells, *source).len() - visited@.dom().len(), to_visit@.len(),
    {
        let ghost state = search_after(cells, *source, pops);
        let ghost next = advanced(cells, state);
        match to_visit.pop() {
            None => {
                break ;
            },
            Some(Visit { vertex, distance }) => {
                let vertex_at = (vertex.q, vertex.r, vertex.s);
                let seen = visited.insert(vertex_at, ());
                proof {
                    assert(visited@.dom() =~= state.visited.insert(vertex_at));
                    lemma_advanced(cells, *source, state);
                    lemma_len_subset(next.visited, places(cells, *source));
                }
                // a cell that has been visited before is passed over
                if seen.is_none() {
                    let found = hex_map.get_neighbors(&vertex);
                    let ghost around = neighbors(cells, vertex);
                    let ghost opened = SearchState {
                        visited: state.visited.insert(vertex_at),
                        frontier: to_visit@,
                        ..state
                    };
                    let mut i: usize = 0;
                    while i < found.len()
                        invariant
                            cost == 1,
                            distance < usize::MAX,
                            0 <= i <= found.len(),
                            vertex_at == vertex.coord(),
                            around == found@.map_values(|cell: &Hex| *cell),
                            distances@ == relaxed_all(
                                opened,
                                vertex,
                                distance,
                                around,
                                i as int,
                            ).distances,
                            parent@ == relaxed_all(
                                opened,
                                vertex,
                                distance,
                                around,
                                i as int,
                            ).parents,
                            visited@.dom() == relaxed_all(
                                opened,
                                vertex,
                                distance,
                                around,
                                i as int,
                            ).visited,
                            to_visit@ == relaxed_all(
                                opened,
                                vertex,
                                distance,
                                around,
                                i as int,
                            ).frontier,
                        decreases found.len() - i,
                    {
                        let neighbor = found[i];
                        let neighbor_at = (neighbor.q, neighbor.r, neighbor.s);
                        let new_distance = distance + cost;
                        let is_shorter = match distances.get(neighbor_at) {
                            None => true,
                            Some(current) => new_distance < *current,
                        };
                        proof {
                            assert(around[i as int] == *neighbor);
                        }
                        // a shorter distance is recorded with the parent it came by
                        if is_shorter {
                            distances.insert(neighbor_at, new_distance);
                            parent.insert(neighbor_at, Some(vertex));
                            to_visit.push(Visit { vertex: *neighbor, distance: new_distance });
                        }
                        i += 1;
                    }
                }
                proof {
                    pops = pops + 1;
                }
            },
        }
    }

    proof {
        lemma_explored(cells, *source, pops);
        lemma_finished(cells, *source, search_after(cells, *source, pops), *target);
    }

    // a target of which no distance is known cannot be reached
    let target_at = (target.q, target.r, target.s);
    if !distances.contains_key(target_at) {
        return Err("No path found");
    }
    // reconstruct the route by backtracking from the target to the source

    proof {
        let state = search_after(cells, *source, pops);
        assert forall|at: Coord| #[trigger]
            parent@.contains_key(at) && parent@[at] is Some implies distances@[parent@[at].unwrap().coord()]
            < distances@[at] by {
            assert(state.distances.contains_key(at));
            assert(recorded_well(cells, *source, state, at));
        }
    }
    let result = generate_path(&parent, target, Ghost(distances@));

    Ok(result)
}

/// Collects the cells from `target` back along the recorded parents:
/// `target` first, then its parent, and so on to the cell without one.
fn generate_path(
    parent: &CoordTable<Option<Hex>>,
    target: &Hex,
    Ghost(distances): Ghost<Map<Coord, usize>>,
) -> (result_list: Vec<Hex>)
    requires
        ranked(parent@, distances),
    ensures
        result_list@ == traced(parent@, distances, *target),
{
    let mut target_hex = *target;
    let mut result_list = Vec::new();

    result_list.push(target_hex);

    loop
        invariant_except_break
            ranked(parent@, distances),
            result_list@.len() > 0,
            result_list@.last() == target_hex,
            result_list@.drop_last() + traced(parent@, distances, target_hex) == traced(
                parent@,
                distances,
                *target,
            ),
        ensures
            result_list@ == traced(parent@, distances, *target),
        decreases distances[target_hex.coord()],
    {
        let at = (target_hex.q, target_hex.r, target_hex.s);
        match parent.get(at) {
            Some(Some(next_hex)) => {
                let ghost before = result_list@;
                let ghost rest = traced(parent@, distances, *next_hex);
                target_hex = *next_hex;
                result_list.push(target_hex);
                proof {
                    assert(result_list@.drop_last() =~= before);
                    assert(before =~= before.drop_last() + seq![before.last()]);
                    assert(before.drop_last() + (seq![before.last()] + rest) =~= (
                    before.drop_last() + seq![before.last()]) + rest);
                }
            },
            _ => {
                proof {
                    assert(result_list@ =~= result_list@.drop_last() + seq![target_hex]);
                }
                break ;
            },
        }
    }

    result_list
}

} // verus!
