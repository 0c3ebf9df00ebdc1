//! Why the search finds shortest routes: what holds of every state of a
//! search, and what follows once the frontier is exhausted.

use super::frontier::{
    is_heap, lemma_popped, lemma_popped_entries, lemma_pushed, lemma_pushed_entries, popped, Visit,
};
use super::hex::{Coord, Hex};
use super::hex_map::{
    adjacent, lemma_neighbors, lemma_neighbors_upto, neighbors, step, well_keyed, Cells,
};
use super::search::{
    advanced, exhausted, explored, found_route, lemma_explored, relaxed, relaxed_all, route,
    search_after, started, traced, SearchState,
};
use vstd::prelude::*;
use vstd::set_lib::{lemma_len_subset, lemma_map_size_bound};

verus! {

/// Whether one step from `from` reaches the place of `to`.
pub open spec fn reaches(cells: Cells, from: Hex, to: Hex) -> bool {
    exists|i: int|
        0 <= i < 6 && (#[trigger] step(cells, from, i)) is Some && step(
            cells,
            from,
            i,
        ).unwrap().same_place(to)
}

/// Whether one step leads from the `i`-th cell of `walk` to the next.
pub open spec fn link(cells: Cells, walk: Seq<Hex>, i: int) -> bool {
    reaches(cells, walk[i], walk[i + 1])
}

/// A walk: a sequence of cells, at least one, in which one step leads
/// from each cell to the next.
pub open spec fn is_walk(cells: Cells, walk: Seq<Hex>) -> bool {
    walk.len() > 0 && forall|i: int| 0 <= i < walk.len() - 1 ==> #[trigger] link(cells, walk, i)
}

/// Whether `walk` is a walk from the place of `source` to that of `target`.
pub open spec fn joins(cells: Cells, source: Hex, target: Hex, walk: Seq<Hex>) -> bool {
    is_walk(cells, walk) && walk[0].same_place(source) && walk.last().same_place(target)
}

/// Whether some walk leads from the place of `source` to that of `target`.
pub open spec fn reachable(cells: Cells, source: Hex, target: Hex) -> bool {
    exists|walk: Seq<Hex>| joins(cells, source, target, walk)
}

/// Whether `path`, read backwards, is a walk from `source` to `target`
/// that is as short as any, and begins with `target` itself.
pub open spec fn is_shortest_route(cells: Cells, source: Hex, target: Hex, path: Seq<Hex>) -> bool {
    &&& path.len() > 0
    &&& path[0] == target
    &&& joins(cells, source, target, path.reverse())
    &&& forall|walk: Seq<Hex>| #[trigger]
        joins(cells, source, target, walk) ==> path.len() <= walk.len()
}

/// The places a search from `source` can come to: that of `source` and
/// those of the records of the grid.
pub open spec fn places(cells: Cells, source: Hex) -> Set<Coord> {
    cells.dom().map(|pair: (i32, i32)| (pair.0, pair.1, cells[pair].s)).insert(source.coord())
}

/// What is recorded of a discovered place is true of the grid: the
/// source lies at distance 0 and has no parent; any other place holds a
/// record of the grid, one step from its parent, which was visited and
/// lies one nearer.
pub open spec fn recorded_well(cells: Cells, source: Hex, state: SearchState, at: Coord) -> bool {
    if at == source.coord() {
        state.distances[at] == 0 && state.parents[at] is None
    } else {
        &&& cells.contains_key((at.0, at.1))
        &&& cells[(at.0, at.1)].s == at.2
        &&& state.parents[at] is Some
        &&& state.visited.contains(state.parents[at].unwrap().coord())
        &&& state.distances[at] == state.distances[state.parents[at].unwrap().coord()] + 1
        &&& adjacent(cells, state.parents[at].unwrap(), cells[(at.0, at.1)])
    }
}

/// An entry of the frontier stands for a discovered place, at a distance
/// no less than the one recorded and no more than the number of places
/// visited.
pub open spec fn entry_well(state: SearchState, entry: Visit) -> bool {
    &&& state.distances.contains_key(entry.vertex.coord())
    &&& state.distances[entry.vertex.coord()] <= entry.distance
    &&& entry.distance <= state.visited.len()
}

/// The distance recorded of `at` is no more than that of `entry`.
pub open spec fn below(state: SearchState, at: Coord, entry: Visit) -> bool {
    state.distances[at] <= entry.distance
}

/// The place `at` waits on the frontier at its recorded distance.
pub open spec fn waits(state: SearchState, at: Coord) -> bool {
    exists|entry: Visit| #[trigger]
        state.frontier.contains(entry) && entry.vertex.coord() == at && entry.distance
            == state.distances[at]
}

/// The place of `cell` is discovered, no more than one farther than `from`.
pub open spec fn near(state: SearchState, from: Coord, cell: Hex) -> bool {
    state.distances.contains_key(cell.coord()) && state.distances[cell.coord()]
        <= state.distances[from] + 1
}

/// What direction `i` reaches from `hex`, if anything, is near `hex`.
pub open spec fn closed_at(cells: Cells, state: SearchState, hex: Hex, i: int) -> bool {
    step(cells, hex, i) is Some ==> near(state, hex.coord(), step(cells, hex, i).unwrap())
}

/// What holds of every state of a search, but for the neighbors of visited
/// places.
pub open spec fn sound_core(cells: Cells, source: Hex, state: SearchState) -> bool {
    &&& state.visited.finite()
    &&& state.parents.dom() == state.distances.dom()
    &&& state.visited.subset_of(state.distances.dom())
    &&& state.distances.dom().subset_of(places(cells, source))
    &&& state.distances.contains_key(source.coord())
    &&& is_heap(state.frontier)
    &&& forall|at: Coord|
        state.distances.contains_key(at) ==> #[trigger] recorded_well(cells, source, state, at)
    &&& forall|entry: Visit|
        state.frontier.contains(entry) ==> #[trigger] entry_well(state, entry)
    &&& forall|at: Coord, entry: Visit|
        state.visited.contains(at) && state.frontier.contains(entry) ==> #[trigger] below(
            state,
            at,
            entry,
        )
    &&& forall|at: Coord|
        state.distances.contains_key(at) && !state.visited.contains(at) ==> #[trigger] waits(
            state,
            at,
        )
}

/// The neighbors of every visited place but `skip` are discovered, none
/// more than one farther than the place.
pub open spec fn closed_but(cells: Cells, state: SearchState, skip: Option<Coord>) -> bool {
    forall|hex: Hex, i: int|
        state.visited.contains(hex.coord()) && skip != Some(hex.coord()) && 0 <= i < 6
            ==> #[trigger] closed_at(cells, state, hex, i)
}

/// What holds of every state of a search.
pub open spec fn sound(cells: Cells, source: Hex, state: SearchState) -> bool {
    sound_core(cells, source, state) && closed_but(cells, state, None)
}

/// The places of a search are finitely many, and the place of every
/// record of a well-keyed grid is among them.
pub proof fn lemma_places(cells: Cells, source: Hex)
    requires
        well_keyed(cells),
    ensures
        places(cells, source).finite(),
        places(cells, source).contains(source.coord()),
        forall|q: i32, r: i32| #[trigger]
            cells.contains_key((q, r)) ==> places(cells, source).contains(
                (q, r, cells[(q, r)].s),
            ),
{
    let place = |pair: (i32, i32)| (pair.0, pair.1, cells[pair].s);
    cells.dom().lemma_map_finite(place);
    assert forall|q: i32, r: i32| #[trigger] cells.contains_key((q, r)) implies places(
        cells,
        source,
    ).contains((q, r, cells[(q, r)].s)) by {
        assert(cells.dom().contains((q, r)));
        assert(place((q, r)) == (q, r, cells[(q, r)].s));
        assert(cells.dom().map(place).contains(place((q, r))));
    }
}

/// The state in which a search starts is sound.
pub proof fn lemma_started(cells: Cells, source: Hex)
    requires
        well_keyed(cells),
    ensures
        sound(cells, source, started(source)),
{
    let state = started(source);
    let first = Visit { vertex: source, distance: 0 };
    lemma_places(cells, source);
    assert(is_heap(Seq::<Visit>::empty()));
    lemma_pushed(Seq::<Visit>::empty(), first);
    lemma_pushed_entries(Seq::<Visit>::empty(), first);
    assert(state.parents.dom() =~= state.distances.dom());
    assert(state.frontier.contains(first));
    assert forall|entry: Visit| state.frontier.contains(entry) implies #[trigger] entry_well(
        state,
        entry,
    ) by {
        assert(entry == first);
    }
    assert forall|at: Coord|
        state.distances.contains_key(at) && !state.visited.contains(at) implies #[trigger] waits(
        state,
        at,
    ) by {
        assert(state.frontier.contains(first) && first.vertex.coord() == at);
    }
}

/// What holds while the neighbors of `from` are looked at: `from` was
/// visited at `distance`, no visited place lies farther, and the state is
/// sound but for the neighbors of `from`.
pub open spec fn opened(
    cells: Cells,
    source: Hex,
    state: SearchState,
    from: Hex,
    distance: usize,
) -> bool {
    &&& sound_core(cells, source, state)
    &&& closed_but(cells, state, Some(from.coord()))
    &&& state.visited.contains(from.coord())
    &&& state.distances[from.coord()] == distance
    &&& distance < state.visited.len() <= usize::MAX
    &&& forall|at: Coord| #[trigger] state.visited.contains(at) ==> state.distances[at] <= distance
}

/// Looking at one neighbor keeps what holds while neighbors are looked at,
/// and leaves the neighbor near.
pub proof fn lemma_relaxed(
    cells: Cells,
    source: Hex,
    state: SearchState,
    from: Hex,
    distance: usize,
    neighbor: Hex,
)
    requires
        well_keyed(cells),
        opened(cells, source, state, from, distance),
        adjacent(cells, from, neighbor),
    ensures
        opened(cells, source, relaxed(state, from, distance, neighbor), from, distance),
        relaxed(state, from, distance, neighbor).visited == state.visited,
        near(relaxed(state, from, distance, neighbor), from.coord(), neighbor),
        forall|cell: Hex|
            near(state, from.coord(), cell) ==> #[trigger] near(
                relaxed(state, from, distance, neighbor),
                from.coord(),
                cell,
            ),
{
    let next = relaxed(state, from, distance, neighbor);
    let at = neighbor.coord();
    let new_distance = (distance + 1) as usize;
    let entry = Visit { vertex: neighbor, distance: new_distance };
    let i = choose|i: int| 0 <= i < 6 && #[trigger] step(cells, from, i) == Some(neighbor);
    assert(cells.contains_key((at.0, at.1)) && cells[(at.0, at.1)] == neighbor);
    lemma_places(cells, source);
    if !state.distances.contains_key(at) || new_distance < state.distances[at] {
        lemma_pushed(state.frontier, entry);
        lemma_pushed_entries(state.frontier, entry);
        assert(recorded_well(cells, source, state, source.coord()));
        assert(at != source.coord());
        assert(!state.visited.contains(at));
        assert(at != from.coord());
        assert(next.parents.dom() =~= next.distances.dom());
        assert forall|place: Coord| next.distances.contains_key(place) implies #[trigger] recorded_well(
            cells,
            source,
            next,
            place,
        ) by {
            if place != at {
                assert(recorded_well(cells, source, state, place));
            }
        }
        assert forall|other: Visit| next.frontier.contains(other) implies #[trigger] entry_well(
            next,
            other,
        ) by {
            if other != entry {
                assert(state.frontier.contains(other));
                assert(entry_well(state, other));
            }
        }
        assert forall|place: Coord, other: Visit|
            next.visited.contains(place) && next.frontier.contains(other) implies #[trigger] below(
            next,
            place,
            other,
        ) by {
            if other != entry {
                assert(state.frontier.contains(other));
                assert(below(state, place, other));
            }
        }
        assert forall|place: Coord|
            next.distances.contains_key(place) && !next.visited.contains(
                place,
            ) implies #[trigger] waits(next, place) by {
            if place == at {
                assert(next.frontier.contains(entry) && entry.vertex.coord() == place);
            } else {
                assert(waits(state, place));
                let waiting = choose|waiting: Visit| #[trigger]
                    state.frontier.contains(waiting) && waiting.vertex.coord() == place
                        && waiting.distance == state.distances[place];
                assert(next.frontier.contains(waiting) && waiting.vertex.coord() == place);
            }
        }
        assert forall|hex: Hex, j: int|
            next.visited.contains(hex.coord()) && Some(from.coord()) != Some(hex.coord()) && 0 <= j
                < 6 implies #[trigger] closed_at(cells, next, hex, j) by {
            assert(closed_at(cells, state, hex, j));
        }
    }
}

/// Looking at the first `n` neighbors keeps what holds while neighbors
/// are looked at, and leaves each of them near.
pub proof fn lemma_relaxed_all(
    cells: Cells,
    source: Hex,
    state: SearchState,
    from: Hex,
    distance: usize,
    around: Seq<Hex>,
    n: int,
)
    requires
        well_keyed(cells),
        opened(cells, source, state, from, distance),
        0 <= n <= around.len(),
        forall|m: int| 0 <= m < n ==> adjacent(cells, from, #[trigger] around[m]),
    ensures
        opened(cells, source, relaxed_all(state, from, distance, around, n), from, distance),
        relaxed_all(state, from, distance, around, n).visited == state.visited,
        forall|m: int|
            0 <= m < n ==> near(
                relaxed_all(state, from, distance, around, n),
                from.coord(),
                #[trigger] around[m],
            ),
    decreases n,
{
    if n > 0 {
        lemma_relaxed_all(cells, source, state, from, distance, around, n - 1);
        let before = relaxed_all(state, from, distance, around, n - 1);
        lemma_relaxed(cells, source, before, from, distance, around[n - 1]);
        let after = relaxed_all(state, from, distance, around, n);
        assert forall|m: int| 0 <= m < n implies near(after, from.coord(), #[trigger] around[m]) by {
            if m < n - 1 {
                assert(near(before, from.coord(), around[m]));
            }
        }
    }
}

/// One pop keeps a state sound. A pop either drops an entry and leaves
/// the visited places as they are, or visits one place more.
pub proof fn lemma_advanced(cells: Cells, source: Hex, state: SearchState)
    requires
        well_keyed(cells),
        sound(cells, source, state),
        state.frontier.len() > 0,
        state.visited.insert(state.frontier[0].vertex.coord()).len() <= usize::MAX,
    ensures
        sound(cells, source, advanced(cells, state)),
        advanced(cells, state).visited == state.visited.insert(state.frontier[0].vertex.coord()),
        state.visited.contains(state.frontier[0].vertex.coord()) ==> advanced(
            cells,
            state,
        ).frontier.len() == state.frontier.len() - 1,
        state.frontier[0].distance <= state.visited.len(),
{
    let nearest = state.frontier[0];
    let vertex = nearest.vertex;
    let rest = popped(state.frontier);
    lemma_popped(state.frontier);
    lemma_popped_entries(state.frontier);
    assert(state.frontier.contains(nearest));
    assert(entry_well(state, nearest));
    if state.visited.contains(vertex.coord()) {
        let next = SearchState { frontier: rest, ..state };
        assert(next.visited =~= state.visited.insert(vertex.coord()));
        lemma_dropped(cells, source, state);
    } else {
        let start = SearchState {
            visited: state.visited.insert(vertex.coord()),
            frontier: rest,
            ..state
        };
        lemma_opened(cells, source, state);
        let around = neighbors(cells, vertex);
        lemma_neighbors(cells, vertex);
        lemma_neighbors_upto(cells, vertex, 6);
        assert forall|m: int| 0 <= m < around.len() implies adjacent(
            cells,
            vertex,
            #[trigger] around[m],
        ) by {
            assert(around.contains(around[m]));
        }
        lemma_relaxed_all(
            cells,
            source,
            start,
            vertex,
            nearest.distance,
            around,
            around.len() as int,
        );
        let next = advanced(cells, state);
        assert forall|hex: Hex, i: int|
            next.visited.contains(hex.coord()) && 0 <= i < 6 implies #[trigger] closed_at(
            cells,
            next,
            hex,
            i,
        ) by {
            if hex.coord() == vertex.coord() {
                if step(cells, hex, i) is Some {
                    let cell = step(cells, hex, i).unwrap();
                    assert(step(cells, vertex, i) == Some(cell));
                    assert(around.contains(cell));
                    let m = choose|m: int| 0 <= m < around.len() && around[m] == cell;
                    assert(near(next, vertex.coord(), around[m]));
                }
            }
        }
    }
}

/// Dropping the entry of a place that was visited before keeps a state
/// sound.
proof fn lemma_dropped(cells: Cells, source: Hex, state: SearchState)
    requires
        well_keyed(cells),
        sound(cells, source, state),
        state.frontier.len() > 0,
        state.visited.contains(state.frontier[0].vertex.coord()),
    ensures
        sound(cells, source, SearchState { frontier: popped(state.frontier), ..state }),
{
    let next = SearchState { frontier: popped(state.frontier), ..state };
    let nearest = state.frontier[0];
    lemma_popped(state.frontier);
    lemma_popped_entries(state.frontier);
    assert forall|at: Coord| next.distances.contains_key(at) implies #[trigger] recorded_well(
        cells,
        source,
        next,
        at,
    ) by {
        assert(recorded_well(cells, source, state, at));
    }
    assert forall|entry: Visit| next.frontier.contains(entry) implies #[trigger] entry_well(
        next,
        entry,
    ) by {
        assert(state.frontier.contains(entry));
        assert(entry_well(state, entry));
    }
    assert forall|at: Coord, entry: Visit|
        next.visited.contains(at) && next.frontier.contains(entry) implies #[trigger] below(
        next,
        at,
        entry,
    ) by {
        assert(state.frontier.contains(entry));
        assert(below(state, at, entry));
    }
    assert forall|at: Coord|
        next.distances.contains_key(at) && !next.visited.contains(at) implies #[trigger] waits(
        next,
        at,
    ) by {
        assert(waits(state, at));
        let waiting = choose|waiting: Visit| #[trigger]
            state.frontier.contains(waiting) && waiting.vertex.coord() == at && waiting.distance
                == state.distances[at];
        assert(next.frontier.contains(waiting) && waiting.vertex.coord() == at);
    }
    assert forall|hex: Hex, i: int|
        next.visited.contains(hex.coord()) && 0 <= i < 6 implies #[trigger] closed_at(
        cells,
        next,
        hex,
        i,
    ) by {
        assert(closed_at(cells, state, hex, i));
    }
}

/// Visiting the place of the nearest entry, where it was not visited
/// before, gives a state in which its neighbors can be looked at.
proof fn lemma_opened(cells: Cells, source: Hex, state: SearchState)
    requires
        well_keyed(cells),
        sound(cells, source, state),
        state.frontier.len() > 0,
        !state.visited.contains(state.frontier[0].vertex.coord()),
        state.visited.insert(state.frontier[0].vertex.coord()).len() <= usize::MAX,
    ensures
        opened(
            cells,
            source,
            SearchState {
                visited: state.visited.insert(state.frontier[0].vertex.coord()),
                frontier: popped(state.frontier),
                ..state
            },
            state.frontier[0].vertex,
            state.frontier[0].distance,
        ),
{
    let nearest = state.frontier[0];
    let here = nearest.vertex.coord();
    let next = SearchState {
        visited: state.visited.insert(here),
        frontier: popped(state.frontier),
        ..state
    };
    lemma_popped(state.frontier);
    lemma_popped_entries(state.frontier);
    assert(state.frontier.contains(nearest));
    assert(entry_well(state, nearest));
    assert(waits(state, here));
    let twin = choose|twin: Visit| #[trigger]
        state.frontier.contains(twin) && twin.vertex.coord() == here && twin.distance
            == state.distances[here];
    let k = choose|k: int| 0 <= k < state.frontier.len() && state.frontier[k] == twin;
    assert(nearest.distance <= state.frontier[k].distance);
    assert(state.distances[here] == nearest.distance);
    assert forall|at: Coord| next.distances.contains_key(at) implies #[trigger] recorded_well(
        cells,
        source,
        next,
        at,
    ) by {
        assert(recorded_well(cells, source, state, at));
    }
    assert forall|entry: Visit| next.frontier.contains(entry) implies #[trigger] entry_well(
        next,
        entry,
    ) by {
        assert(state.frontier.contains(entry));
        assert(entry_well(state, entry));
    }
    assert forall|at: Coord, entry: Visit|
        next.visited.contains(at) && next.frontier.contains(entry) implies #[trigger] below(
        next,
        at,
        entry,
    ) by {
        assert(state.frontier.contains(entry));
        if at == here {
            let j = choose|j: int| 0 <= j < state.frontier.len() && state.frontier[j] == entry;
            assert(nearest.distance <= state.frontier[j].distance);
        } else {
            assert(below(state, at, entry));
        }
    }
    assert forall|at: Coord|
        next.distances.contains_key(at) && !next.visited.contains(at) implies #[trigger] waits(
        next,
        at,
    ) by {
        assert(waits(state, at));
        let waiting = choose|waiting: Visit| #[trigger]
            state.frontier.contains(waiting) && waiting.vertex.coord() == at && waiting.distance
                == state.distances[at];
        assert(next.frontier.contains(waiting) && waiting.vertex.coord() == at);
    }
    assert forall|hex: Hex, i: int|
        next.visited.contains(hex.coord()) && Some(here) != Some(hex.coord()) && 0 <= i
            < 6 implies #[trigger] closed_at(cells, next, hex, i) by {
        assert(closed_at(cells, state, hex, i));
    }
    assert forall|at: Coord| #[trigger] next.visited.contains(at) implies next.distances[at]
        <= nearest.distance by {
        if at != here {
            assert(below(state, at, nearest));
        }
    }
}

/// Whether one step leads from the cell after the `i`-th of `path` to the
/// `i`-th.
pub open spec fn back_link(cells: Cells, path: Seq<Hex>, i: int) -> bool {
    reaches(cells, path[i + 1], path[i])
}

/// Once the frontier is exhausted, every cell of a walk from the source is
/// discovered, at a distance no more than its index in the walk.
pub proof fn lemma_walk_within(
    cells: Cells,
    source: Hex,
    state: SearchState,
    walk: Seq<Hex>,
    k: int,
)
    requires
        well_keyed(cells),
        sound(cells, source, state),
        state.frontier.len() == 0,
        is_walk(cells, walk),
        walk[0].same_place(source),
        0 <= k < walk.len(),
    ensures
        state.distances.contains_key(walk[k].coord()),
        state.distances[walk[k].coord()] <= k,
    decreases k,
{
    if k == 0 {
        assert(recorded_well(cells, source, state, source.coord()));
    } else {
        lemma_walk_within(cells, source, state, walk, k - 1);
        let before = walk[k - 1];
        if !state.visited.contains(before.coord()) {
            assert(waits(state, before.coord()));
            let waiting = choose|waiting: Visit| #[trigger]
                state.frontier.contains(waiting) && waiting.vertex.coord() == before.coord()
                    && waiting.distance == state.distances[before.coord()];
            assert(false);
        }
        assert(link(cells, walk, k - 1));
        let i = choose|i: int|
            0 <= i < 6 && (#[trigger] step(cells, before, i)) is Some && step(
                cells,
                before,
                i,
            ).unwrap().same_place(walk[k]);
        assert(closed_at(cells, state, before, i));
    }
}

/// The cells traced back from a discovered cell are one more than its
/// distance; they begin with the cell and end in the place of the source,
/// and one step leads from each to the one before it.
pub proof fn lemma_traced(cells: Cells, source: Hex, state: SearchState, from: Hex)
    requires
        well_keyed(cells),
        sound_core(cells, source, state),
        state.distances.contains_key(from.coord()),
    ensures
        traced(state.parents, state.distances, from).len() == state.distances[from.coord()] + 1,
        traced(state.parents, state.distances, from)[0] == from,
        traced(state.parents, state.distances, from).last().same_place(source),
        forall|i: int|
            0 <= i < traced(state.parents, state.distances, from).len() - 1 ==> #[trigger] back_link(
                cells,
                traced(state.parents, state.distances, from),
                i,
            ),
    decreases state.distances[from.coord()],
{
    let at = from.coord();
    let path = traced(state.parents, state.distances, from);
    assert(recorded_well(cells, source, state, at));
    if at != source.coord() {
        let up = state.parents[at].unwrap();
        lemma_traced(cells, source, state, up);
        let rest = traced(state.parents, state.distances, up);
        assert(path == seq![from] + rest);
        let record = cells[(at.0, at.1)];
        let j = choose|j: int| 0 <= j < 6 && #[trigger] step(cells, up, j) == Some(record);
        assert(step(cells, up, j) is Some && step(cells, up, j).unwrap().same_place(from));
        assert forall|i: int| 0 <= i < path.len() - 1 implies #[trigger] back_link(
            cells,
            path,
            i,
        ) by {
            if i > 0 {
                assert(back_link(cells, rest, i - 1));
                assert(path[i] == rest[i - 1]);
                assert(path[i + 1] == rest[i]);
            } else {
                assert(path[1] == rest[0]);
            }
        }
    }
}

/// Once the frontier is exhausted, the state holds a route for exactly
/// the targets that a walk from the source leads to, and the route is as
/// short as any such walk.
pub proof fn lemma_finished(cells: Cells, source: Hex, state: SearchState, target: Hex)
    requires
        well_keyed(cells),
        sound(cells, source, state),
        state.frontier.len() == 0,
    ensures
        route(state, target) is Some <==> reachable(cells, source, target),
        route(state, target) is Some ==> is_shortest_route(
            cells,
            source,
            target,
            route(state, target).unwrap(),
        ),
{
    if reachable(cells, source, target) {
        let walk = choose|walk: Seq<Hex>| joins(cells, source, target, walk);
        lemma_walk_within(cells, source, state, walk, walk.len() - 1);
    }
    if route(state, target) is Some {
        let path = route(state, target).unwrap();
        lemma_traced(cells, source, state, target);
        let back = path.reverse();
        assert forall|i: int| 0 <= i < back.len() - 1 implies #[trigger] link(cells, back, i) by {
            assert(back_link(cells, path, path.len() - 2 - i));
        }
        assert(joins(cells, source, target, back));
        assert forall|walk: Seq<Hex>| #[trigger]
            joins(cells, source, target, walk) implies path.len() <= walk.len() by {
            lemma_walk_within(cells, source, state, walk, walk.len() - 1);
        }
    }
}

/// The places of a search are at most one more than the cells of the
/// grid.
pub proof fn lemma_places_count(cells: Cells, source: Hex)
    requires
        well_keyed(cells),
    ensures
        places(cells, source).finite(),
        places(cells, source).len() <= cells.len() + 1,
{
    let place = |pair: (i32, i32)| (pair.0, pair.1, cells[pair].s);
    lemma_map_size_bound(cells.dom(), cells.dom().map(place), place);
}

/// From a sound state, a search in a grid of fewer than `usize::MAX` cells
/// comes to a state in which the frontier is empty, and that state is
/// sound.
proof fn lemma_ends_from(cells: Cells, source: Hex, n: nat) -> (m: nat)
    requires
        well_keyed(cells),
        cells.len() < usize::MAX,
        sound(cells, source, search_after(cells, source, n)),
    ensures
        exhausted(cells, source, m),
        sound(cells, source, search_after(cells, source, m)),
    decreases
        places(cells, source).len() - search_after(cells, source, n).visited.len(),
        search_after(cells, source, n).frontier.len(),
{
    let state = search_after(cells, source, n);
    if state.frontier.len() == 0 {
        n
    } else {
        let nearest = state.frontier[0];
        lemma_places_count(cells, source);
        assert(state.frontier.contains(nearest));
        assert(entry_well(state, nearest));
        lemma_len_subset(state.visited, places(cells, source));
        lemma_len_subset(state.visited.insert(nearest.vertex.coord()), places(cells, source));
        lemma_advanced(cells, source, state);
        assert(search_after(cells, source, n + 1) == advanced(cells, state));
        lemma_ends_from(cells, source, n + 1)
    }
}

/// The search from any source in a grid of fewer than `usize::MAX` cells
/// ends: some number of pops empties the frontier, and the state in which
/// the search ends is sound.
pub proof fn lemma_search_ends(cells: Cells, source: Hex)
    requires
        well_keyed(cells),
        cells.len() < usize::MAX,
    ensures
        exists|n: nat| exhausted(cells, source, n),
        explored(cells, source).frontier.len() == 0,
        sound(cells, source, explored(cells, source)),
{
    lemma_started(cells, source);
    let m = lemma_ends_from(cells, source, 0);
    lemma_explored(cells, source, m);
}

/// In a grid of fewer than `usize::MAX` cells the search finds a route
/// exactly where a walk leads from the source to the target, and the route
/// it finds is as short as any such walk.
pub proof fn lemma_found_route(cells: Cells, source: Hex, target: Hex)
    requires
        well_keyed(cells),
        cells.len() < usize::MAX,
    ensures
        found_route(cells, source, target) is Some <==> reachable(cells, source, target),
        found_route(cells, source, target) is Some ==> is_shortest_route(
            cells,
            source,
            target,
            found_route(cells, source, target).unwrap(),
        ),
{
    lemma_search_ends(cells, source);
    lemma_finished(cells, source, explored(cells, source), target);
}

} // verus!
