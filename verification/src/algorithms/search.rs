//! The search for shortest routes as a function of the grid and the source:
//! the state of the search, what one pop of the frontier does to it, and
//! the state in which the frontier is exhausted.

use super::frontier::{popped, pushed, Visit};
use super::hex::{Coord, Hex};
use super::hex_map::{neighbors, Cells};
use vstd::prelude::*;

verus! {

/// The state of a search.
pub struct SearchState {
    /// The least distance known of each cell discovered so far.
    pub distances: Map<Coord, usize>,
    /// The cell from which each discovered cell was reached at that
    /// distance: `None` for the source.
    pub parents: Map<Coord, Option<Hex>>,
    /// The cells whose neighbors have been looked at.
    pub visited: Set<Coord>,
    /// The heap of the cells that wait to be looked at.
    pub frontier: Seq<Visit>,
}

/// The state in which a search starts: the source is known at distance 0
/// and waits on the frontier.
pub open spec fn started(source: Hex) -> SearchState {
    SearchState {
        distances: Map::<Coord, usize>::empty().insert(source.coord(), 0),
        parents: Map::<Coord, Option<Hex>>::empty().insert(source.coord(), None),
        visited: Set::<Coord>::empty(),
        frontier: pushed(Seq::<Visit>::empty(), Visit { vertex: source, distance: 0 }),
    }
}

/// The state after `neighbor` is looked at from `from`, which lies at
/// `distance`: where no distance is known of the neighbor, or a greater
/// one than `distance + 1`, that distance and `from` are recorded for it
/// and it is pushed on the frontier.
pub open spec fn relaxed(state: SearchState, from: Hex, distance: usize, neighbor: Hex) -> SearchState {
    let at = neighbor.coord();
    let new_distance = (distance + 1) as usize;
    if !state.distances.contains_key(at) || new_distance < state.distances[at] {
        SearchState {
            distances: state.distances.insert(at, new_distance),
            parents: state.parents.insert(at, Some(from)),
            visited: state.visited,
            frontier: pushed(state.frontier, Visit { vertex: neighbor, distance: new_distance }),
        }
    } else {
        state
    }
}

/// The state after the first `n` of `around` are looked at from `from`.
pub open spec fn relaxed_all(
    state: SearchState,
    from: Hex,
    distance: usize,
    around: Seq<Hex>,
    n: int,
) -> SearchState
    decreases n,
{
    if n <= 0 {
        state
    } else {
        relaxed(relaxed_all(state, from, distance, around, n - 1), from, distance, around[n - 1])
    }
}

/// The state after one pop of the frontier. An entry whose cell was
/// visited before is dropped; otherwise the cell is visited and its
/// neighbors are looked at in their order. With an empty frontier the
/// state stays as it is.
pub open spec fn advanced(cells: Cells, state: SearchState) -> SearchState {
    if state.frontier.len() == 0 {
        state
    } else {
        let nearest = state.frontier[0];
        let rest = popped(state.frontier);
        if state.visited.contains(nearest.vertex.coord()) {
            SearchState { frontier: rest, ..state }
        } else {
            let opened = SearchState {
                visited: state.visited.insert(nearest.vertex.coord()),
                frontier: rest,
                ..state
            };
            let around = neighbors(cells, nearest.vertex);
            relaxed_all(opened, nearest.vertex, nearest.distance, around, around.len() as int)
        }
    }
}

/// The state of the search from `source` after `n` pops.
pub open spec fn search_after(cells: Cells, source: Hex, n: nat) -> SearchState
    decreases n,
{
    if n == 0 {
        started(source)
    } else {
        advanced(cells, search_after(cells, source, (n - 1) as nat))
    }
}

/// Whether the frontier is empty after `n` pops.
pub open spec fn exhausted(cells: Cells, source: Hex, n: nat) -> bool {
    search_after(cells, source, n).frontier.len() == 0
}

/// The state in which the search from `source` ends: the state after as
/// many pops as empty the frontier.
pub open spec fn explored(cells: Cells, source: Hex) -> SearchState {
    search_after(cells, source, choose|n: nat| exhausted(cells, source, n))
}

/// The cells from `from` back along the recorded parents, `from` first,
/// as long as each parent lies nearer than its child.
pub open spec fn traced(parents: Map<Coord, Option<Hex>>, distances: Map<Coord, usize>, from: Hex) -> Seq<Hex>
    decreases distances[from.coord()],
{
    let at = from.coord();
    if parents.contains_key(at) && parents[at] is Some && distances[parents[at].unwrap().coord()]
        < distances[at] {
        seq![from] + traced(parents, distances, parents[at].unwrap())
    } else {
        seq![from]
    }
}

/// The route that a state holds for `target`: none where no distance is
/// known of the place of `target`, else `target` and the cells back along
/// the parents.
pub open spec fn route(state: SearchState, target: Hex) -> Option<Seq<Hex>> {
    if state.distances.contains_key(target.coord()) {
        Some(traced(state.parents, state.distances, target))
    } else {
        None
    }
}

/// The route from `target` back to `source` that the search finds in
/// `cells`, or `None` where it finds none.
pub open spec fn found_route(cells: Cells, source: Hex, target: Hex) -> Option<Seq<Hex>> {
    route(explored(cells, source), target)
}

/// Once the frontier is empty the state no longer changes.
pub proof fn lemma_exhausted_stays(cells: Cells, source: Hex, n: nat, m: nat)
    requires
        exhausted(cells, source, n),
        n <= m,
    ensures
        search_after(cells, source, m) == search_after(cells, source, n),
    decreases m,
{
    if m > n {
        lemma_exhausted_stays(cells, source, n, (m - 1) as nat);
    }
}

/// Whatever number of pops empties the frontier, the state is the one in
/// which the search ends.
pub proof fn lemma_explored(cells: Cells, source: Hex, n: nat)
    requires
        exhausted(cells, source, n),
    ensures
        explored(cells, source) == search_after(cells, source, n),
{
    let m = choose|m: nat| exhausted(cells, source, m);
    if m <= n {
        lemma_exhausted_stays(cells, source, m, n);
    } else {
        lemma_exhausted_stays(cells, source, n, m);
    }
}

} // verus!
