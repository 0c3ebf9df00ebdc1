use std::collections::BinaryHeap;

use server::algorithms::dijkstra::find_path;
use server::algorithms::frontier::{Frontier, Visit};
use server::algorithms::hex::{Hex, HexType};
use server::algorithms::hex_map::HexMap;
use server::{create_hex_map, handle_request, offset_to_hex};

fn rows(lines: &[&str]) -> Vec<Vec<char>> {
    lines.iter().map(|line| line.chars().collect()).collect()
}

fn texts(lines: &[&str]) -> Vec<String> {
    lines.iter().map(|line| line.to_string()).collect()
}

#[test]
fn open_grid_route_is_exact() {
    let path = handle_request(
        "dijkstra".to_string(),
        [0, 0],
        [2, 2],
        rows(&["sbb", "bbb", "bbe"]),
    );
    assert_eq!(
        path,
        texts(&["Hex(1,2,-3)", "Hex(0,2,-2)", "Hex(0,1,-1)", "Hex(0,0,0)"])
    );
}

#[test]
fn walled_grid_has_no_route() {
    let path = handle_request(
        "dijkstra".to_string(),
        [0, 0],
        [2, 2],
        rows(&["sbb", "ooo", "ooe"]),
    );
    assert_eq!(path, texts(&["No path found"]));
}

#[test]
fn invalid_character_is_the_whole_answer() {
    let path = handle_request(
        "dijkstra".to_string(),
        [0, 0],
        [1, 1],
        rows(&["sb", "bi"]),
    );
    assert_eq!(path, texts(&["Invalid character in graph"]));
}

#[test]
fn invalid_character_in_first_cell_is_rejected() {
    assert_eq!(
        create_hex_map(rows(&["x"])).err(),
        Some("Invalid character in graph")
    );
}

#[test]
fn unknown_request_type_is_rejected() {
    let path = handle_request(
        "astar".to_string(),
        [0, 0],
        [2, 2],
        rows(&["sbb", "bbb", "bbe"]),
    );
    assert_eq!(path, texts(&["Invalid request type"]));
}

#[test]
fn request_type_is_matched_exactly() {
    for kind in ["", "Dijkstra", "dijkstra ", "dijkstr"] {
        let path = handle_request(kind.to_string(), [0, 0], [0, 1], rows(&["se"]));
        assert_eq!(path, texts(&["Invalid request type"]));
    }
}

#[test]
fn invalid_character_comes_before_unknown_request_type() {
    let path = handle_request("astar".to_string(), [0, 0], [0, 1], rows(&["s?"]));
    assert_eq!(path, texts(&["Invalid character in graph"]));
}

#[test]
fn same_request_gives_same_answer() {
    let graph = rows(&["sbobb", "bbobb", "bobbb", "bbbob", "obbbe"]);
    let first = handle_request("dijkstra".to_string(), [0, 0], [4, 4], graph.clone());
    let second = handle_request("dijkstra".to_string(), [0, 0], [4, 4], graph);
    assert_eq!(first, second);
    assert_eq!(
        first,
        texts(&[
            "Hex(2,4,-6)",
            "Hex(1,4,-5)",
            "Hex(1,3,-4)",
            "Hex(1,2,-3)",
            "Hex(1,1,-2)",
            "Hex(1,0,-1)",
            "Hex(0,0,0)",
        ])
    );
}

#[test]
fn five_by_five_route_is_exact() {
    let path = handle_request(
        "dijkstra".to_string(),
        [0, 0],
        [4, 4],
        rows(&["sbbbb", "bbbbb", "bbbbb", "bbbbb", "bbbbe"]),
    );
    assert_eq!(
        path,
        texts(&[
            "Hex(2,4,-6)",
            "Hex(2,3,-5)",
            "Hex(2,2,-4)",
            "Hex(2,1,-3)",
            "Hex(2,0,-2)",
            "Hex(1,0,-1)",
            "Hex(0,0,0)",
        ])
    );
}

#[test]
fn seven_by_seven_route_is_exact() {
    let path = handle_request(
        "dijkstra".to_string(),
        [0, 0],
        [6, 6],
        rows(&[
            "sbbbbbb", "bbbbbbb", "bbbbbbb", "bbbbbbb", "bbbbbbb", "bbbbbbb", "bbbbbbe",
        ]),
    );
    assert_eq!(
        path,
        texts(&[
            "Hex(3,6,-9)",
            "Hex(2,6,-8)",
            "Hex(1,6,-7)",
            "Hex(1,5,-6)",
            "Hex(1,4,-5)",
            "Hex(1,3,-4)",
            "Hex(0,3,-3)",
            "Hex(0,2,-2)",
            "Hex(0,1,-1)",
            "Hex(0,0,0)",
        ])
    );
}

#[test]
fn route_with_negative_coordinates_is_exact() {
    let path = handle_request(
        "dijkstra".to_string(),
        [5, 0],
        [0, 5],
        rows(&["bbbbbe", "bobbob", "bbbbbb", "boobbb", "bbbbbb", "sbbbbb"]),
    );
    assert_eq!(
        path,
        texts(&[
            "Hex(5,0,-5)",
            "Hex(4,0,-4)",
            "Hex(3,1,-4)",
            "Hex(3,2,-5)",
            "Hex(2,3,-5)",
            "Hex(1,4,-5)",
            "Hex(0,5,-5)",
            "Hex(-1,5,-4)",
            "Hex(-2,5,-3)",
        ])
    );
}

#[test]
fn route_runs_from_target_to_source() {
    let path = handle_request(
        "dijkstra".to_string(),
        [2, 3],
        [0, 0],
        rows(&["ebbb", "bbbb", "bbbs"]),
    );
    assert_eq!(
        path,
        texts(&[
            "Hex(0,0,0)",
            "Hex(1,0,-1)",
            "Hex(2,0,-2)",
            "Hex(2,1,-3)",
            "Hex(2,2,-4)",
        ])
    );
}

#[test]
fn route_to_the_source_is_the_source_alone() {
    let hex_map = create_hex_map(rows(&["sb", "bb"])).unwrap();
    let source = offset_to_hex(0, 0, HexType::Start);
    let target = offset_to_hex(0, 0, HexType::End);
    let path = find_path(&hex_map, &source, &target).unwrap();
    assert_eq!(path.len(), 1);
    assert_eq!(path[0].to_string(), "Hex(0,0,0)");
    assert_eq!(path[0].hex_type, HexType::End);
}

#[test]
fn cells_are_told_apart_by_coordinates() {
    let hex_map = create_hex_map(rows(&["bbb", "bbb", "bbb"])).unwrap();
    let source = offset_to_hex(1, 1, HexType::Start);
    let target = offset_to_hex(2, 0, HexType::End);
    let path = find_path(&hex_map, &source, &target).unwrap();
    let rendered: Vec<String> = path.iter().map(|hex| hex.to_string()).collect();
    assert_eq!(rendered, texts(&["Hex(-1,2,-1)", "Hex(0,2,-2)", "Hex(1,1,-2)"]));
    assert_eq!(path[0].hex_type, HexType::End);
    assert_eq!(path[1].hex_type, HexType::Empty);
    assert_eq!(path[2].hex_type, HexType::Start);
}

#[test]
fn unreachable_target_is_an_error() {
    let hex_map = create_hex_map(rows(&["sob"])).unwrap();
    let source = offset_to_hex(0, 0, HexType::Start);
    let target = offset_to_hex(0, 2, HexType::End);
    assert_eq!(find_path(&hex_map, &source, &target).err(), Some("No path found"));
}

#[test]
fn target_outside_the_grid_is_an_error() {
    let hex_map = create_hex_map(rows(&["sb"])).unwrap();
    let source = offset_to_hex(0, 0, HexType::Start);
    let target = offset_to_hex(7, 7, HexType::End);
    assert_eq!(find_path(&hex_map, &source, &target).err(), Some("No path found"));
}

#[test]
fn obstacle_target_is_an_error() {
    let hex_map = create_hex_map(rows(&["sbo"])).unwrap();
    let source = offset_to_hex(0, 0, HexType::Start);
    let target = offset_to_hex(0, 2, HexType::End);
    assert_eq!(find_path(&hex_map, &source, &target).err(), Some("No path found"));
}

#[test]
fn source_outside_the_grid_steps_onto_it() {
    let hex_map = create_hex_map(rows(&["bb"])).unwrap();
    let source = Hex::new(-1, 0, 1, HexType::Start);
    let target = Hex::new(1, 0, -1, HexType::End);
    let path = find_path(&hex_map, &source, &target).unwrap();
    let rendered: Vec<String> = path.iter().map(|hex| hex.to_string()).collect();
    assert_eq!(rendered, texts(&["Hex(1,0,-1)", "Hex(0,0,0)", "Hex(-1,0,1)"]));
}

#[test]
fn target_with_another_s_is_not_found() {
    let hex_map = create_hex_map(rows(&["sb"])).unwrap();
    let source = offset_to_hex(0, 0, HexType::Start);
    let target = Hex::new(1, 0, 5, HexType::End);
    assert_eq!(find_path(&hex_map, &source, &target).err(), Some("No path found"));
}

#[test]
fn search_at_the_edge_of_the_coordinate_range() {
    let mut hex_map = HexMap::new();
    hex_map.add_hex(Hex::new(i32::MAX, i32::MIN, 1, HexType::Start));
    hex_map.add_hex(Hex::new(i32::MAX - 1, i32::MIN, 2, HexType::End));
    let source = Hex::new(i32::MAX, i32::MIN, 1, HexType::Start);
    let target = Hex::new(i32::MAX - 1, i32::MIN, 2, HexType::End);
    let path = find_path(&hex_map, &source, &target).unwrap();
    let rendered: Vec<String> = path.iter().map(|hex| hex.to_string()).collect();
    assert_eq!(
        rendered,
        texts(&["Hex(2147483646,-2147483648,2)", "Hex(2147483647,-2147483648,1)"])
    );
}

struct ByDistance {
    distance: usize,
    label: i32,
}

impl PartialEq for ByDistance {
    fn eq(&self, other: &Self) -> bool {
        self.distance == other.distance
    }
}

impl Eq for ByDistance {}

impl PartialOrd for ByDistance {
    fn partial_cmp(&self, other: &Self) -> Option<std::cmp::Ordering> {
        Some(self.cmp(other))
    }
}

impl Ord for ByDistance {
    fn cmp(&self, other: &Self) -> std::cmp::Ordering {
        other.distance.cmp(&self.distance)
    }
}

#[test]
fn frontier_pops_in_the_order_of_a_binary_heap() {
    let mut frontier = Frontier::new();
    let mut heap: BinaryHeap<ByDistance> = BinaryHeap::new();
    let mut seed: u64 = 0x2545_f491_4f6c_dd1d;
    let mut label: i32 = 0;
    for _ in 0..20_000 {
        seed = seed
            .wrapping_mul(6364136223846793005)
            .wrapping_add(1442695040888963407);
        let roll = (seed >> 33) % 5;
        if roll < 3 {
            let distance = ((seed >> 40) % 4) as usize;
            frontier.push(Visit {
                vertex: Hex::new(label, 0, -label, HexType::Empty),
                distance,
            });
            heap.push(ByDistance { distance, label });
            label += 1;
        } else {
            let mine = frontier.pop();
            let theirs = heap.pop();
            match (mine, theirs) {
                (None, None) => {}
                (Some(mine), Some(theirs)) => {
                    assert_eq!(mine.distance, theirs.distance);
                    assert_eq!(mine.vertex.q, theirs.label);
                }
                _ => panic!("one heap is empty and the other is not"),
            }
        }
    }
    loop {
        match (frontier.pop(), heap.pop()) {
            (None, None) => break,
            (Some(mine), Some(theirs)) => {
                assert_eq!(mine.distance, theirs.distance);
                assert_eq!(mine.vertex.q, theirs.label);
            }
            _ => panic!("one heap is empty and the other is not"),
        }
    }
}

#[test]
fn frontier_pops_nearest_first() {
    let mut frontier = Frontier::new();
    for distance in [5usize, 3, 8, 1, 9, 2, 7] {
        frontier.push(Visit {
            vertex: Hex::new(0, 0, 0, HexType::Empty),
            distance,
        });
    }
    let mut popped = Vec::new();
    while let Some(visit) = frontier.pop() {
        popped.push(visit.distance);
    }
    assert_eq!(popped, vec![1, 2, 3, 5, 7, 8, 9]);
    assert!(frontier.pop().is_none());
}
