use server::algorithms::hex::{half_down, Hex, HexType};
use server::algorithms::hex_map::HexMap;
use server::{create_hex_map, offset_to_hex};

fn rows(lines: &[&str]) -> Vec<Vec<char>> {
    lines.iter().map(|line| line.chars().collect()).collect()
}

fn places(found: &[&Hex]) -> Vec<(i32, i32, i32)> {
    found.iter().map(|hex| (hex.q, hex.r, hex.s)).collect()
}

#[test]
fn offset_round_trip_on_many_pairs() {
    let edge = [i32::MIN, i32::MIN + 1, -3, -2, -1, 0, 1, 2, 3, i32::MAX - 1, i32::MAX];
    for row in edge {
        for col in edge {
            let hex = offset_to_hex(row, col, HexType::Empty);
            assert_eq!(hex.to_offset_coord(), (row, col));
        }
    }
    for row in -40..40 {
        for col in -40..40 {
            let hex = offset_to_hex(row, col, HexType::Empty);
            assert_eq!(hex.q + hex.r + hex.s, 0);
            assert_eq!(hex.to_offset_coord(), (row, col));
        }
    }
}

#[test]
fn offset_to_hex_follows_the_odd_row_layout() {
    let cases = [
        ((0, 0), (0, 0, 0)),
        ((1, 0), (0, 1, -1)),
        ((2, 0), (-1, 2, -1)),
        ((3, 0), (-1, 3, -2)),
        ((2, 2), (1, 2, -3)),
        ((-1, 0), (1, -1, 0)),
        ((-2, 2), (3, -2, -1)),
        ((-3, -4), (-2, -3, 5)),
    ];
    for ((row, col), (q, r, s)) in cases {
        let hex = offset_to_hex(row, col, HexType::Obstacle);
        assert_eq!((hex.q, hex.r, hex.s), (q, r, s));
        assert_eq!(hex.hex_type, HexType::Obstacle);
    }
}

#[test]
fn to_offset_coord_follows_the_odd_row_layout() {
    assert_eq!(Hex::new(0, 0, 0, HexType::Empty).to_offset_coord(), (0, 0));
    assert_eq!(Hex::new(1, -1, 0, HexType::Empty).to_offset_coord(), (-1, 0));
    assert_eq!(Hex::new(-1, 3, -2, HexType::Empty).to_offset_coord(), (3, 0));
    assert_eq!(Hex::new(3, -2, -1, HexType::Empty).to_offset_coord(), (-2, 2));
    assert_eq!(Hex::new(5, 7, 100, HexType::Empty).to_offset_coord(), (7, 8));
}

#[test]
fn half_down_rounds_towards_minus_infinity() {
    assert_eq!(half_down(0), 0);
    assert_eq!(half_down(1), 0);
    assert_eq!(half_down(2), 1);
    assert_eq!(half_down(-1), -1);
    assert_eq!(half_down(-2), -1);
    assert_eq!(half_down(-3), -2);
    assert_eq!(half_down(i32::MAX), 1073741823);
    assert_eq!(half_down(i32::MIN), -1073741824);
}

#[test]
fn hex_is_rendered_in_decimal() {
    assert_eq!(Hex::new(0, 0, 0, HexType::Empty).to_string(), "Hex(0,0,0)");
    assert_eq!(Hex::new(1, 2, -3, HexType::Start).to_string(), "Hex(1,2,-3)");
    assert_eq!(Hex::new(-10, 205, 9000, HexType::End).to_string(), "Hex(-10,205,9000)");
    assert_eq!(
        Hex::new(i32::MIN, i32::MAX, 1000000000, HexType::Obstacle).to_string(),
        "Hex(-2147483648,2147483647,1000000000)"
    );
    for n in [-101, -100, -99, -11, -10, -9, -1, 0, 1, 9, 10, 11, 99, 100, 101, 12345] {
        assert_eq!(
            Hex::new(n, 0, 0, HexType::Empty).to_string(),
            format!("Hex({},0,0)", n)
        );
    }
}

#[test]
fn hex_equality_is_by_coordinates() {
    let start = Hex::new(1, 2, -3, HexType::Start);
    let end = Hex::new(1, 2, -3, HexType::End);
    assert!(start == end);
    assert!(start != Hex::new(1, 2, 3, HexType::Start));
    assert!(start != Hex::new(1, 0, -3, HexType::Start));
    assert!(start != Hex::new(0, 2, -3, HexType::Start));
}

#[test]
fn new_keeps_an_inconsistent_triple() {
    let hex = Hex::new(1, 1, 1, HexType::Obstacle);
    assert_eq!((hex.q, hex.r, hex.s), (1, 1, 1));
    assert_eq!(hex.hex_type, HexType::Obstacle);
}

#[test]
fn later_cell_replaces_earlier_one() {
    let mut hex_map = HexMap::new();
    hex_map.add_hex(Hex::new(2, -1, -1, HexType::Empty));
    hex_map.add_hex(Hex::new(2, -1, 7, HexType::Obstacle));
    assert_eq!(hex_map.size(), 1);
    let hex = hex_map.get_hex(2, -1).unwrap();
    assert_eq!(hex.s, 7);
    assert_eq!(hex.hex_type, HexType::Obstacle);
}

#[test]
fn cells_are_kept_apart_at_the_edge_of_the_range() {
    let mut hex_map = HexMap::new();
    let corners = [i32::MIN, -1, 0, 1, i32::MAX];
    for q in corners {
        for r in corners {
            hex_map.add_hex(Hex::new(q, r, q ^ r, HexType::Empty));
        }
    }
    assert_eq!(hex_map.size(), 25);
    for q in corners {
        for r in corners {
            let hex = hex_map.get_hex(q, r).unwrap();
            assert_eq!((hex.q, hex.r, hex.s), (q, r, q ^ r));
        }
    }
    assert!(hex_map.get_hex(2, 2).is_none());
    assert!(hex_map.get_hex(i32::MAX, 2).is_none());
}

#[test]
fn grid_holds_the_kind_of_each_character() {
    let hex_map = create_hex_map(rows(&["sbo", "eob"])).unwrap();
    assert_eq!(hex_map.size(), 6);
    assert_eq!(hex_map.get_hex(0, 0).unwrap().hex_type, HexType::Start);
    assert_eq!(hex_map.get_hex(1, 0).unwrap().hex_type, HexType::Empty);
    assert_eq!(hex_map.get_hex(2, 0).unwrap().hex_type, HexType::Obstacle);
    assert_eq!(hex_map.get_hex(0, 1).unwrap().hex_type, HexType::End);
    assert_eq!(hex_map.get_hex(1, 1).unwrap().hex_type, HexType::Obstacle);
    assert_eq!(hex_map.get_hex(2, 1).unwrap().hex_type, HexType::Empty);
    let hex = hex_map.get_hex(2, 1).unwrap();
    assert_eq!((hex.q, hex.r, hex.s), (2, 1, -3));
}

#[test]
fn empty_and_ragged_descriptions_are_grids() {
    assert_eq!(create_hex_map(Vec::new()).unwrap().size(), 0);
    assert_eq!(create_hex_map(rows(&["", ""])).unwrap().size(), 0);
    let hex_map = create_hex_map(rows(&["b", "bbb", "", "bb"])).unwrap();
    assert_eq!(hex_map.size(), 6);
    assert!(hex_map.get_hex(1, 0).is_none());
    assert!(hex_map.get_hex(2, 1).is_some());
    assert!(hex_map.get_hex(0, 3).is_some());
}

#[test]
fn neighbors_come_in_the_order_of_the_directions() {
    let hex_map = create_hex_map(rows(&["bbb", "bbb", "bbb"])).unwrap();
    let hex = hex_map.get_hex(1, 1).unwrap();
    let found = hex_map.get_neighbors(hex);
    assert_eq!(
        places(&found),
        vec![(2, 1, -3), (2, 0, -2), (1, 0, -1), (0, 1, -1), (0, 2, -2), (1, 2, -3)]
    );
}

#[test]
fn obstacles_are_no_neighbors() {
    let hex_map = create_hex_map(rows(&["bob", "obo", "bbo"])).unwrap();
    let hex = hex_map.get_hex(1, 1).unwrap();
    let found = hex_map.get_neighbors(hex);
    assert_eq!(places(&found), vec![(2, 0, -2), (0, 2, -2)]);
    for neighbor in found {
        assert!(neighbor.hex_type != HexType::Obstacle);
    }
}

#[test]
fn corner_cells_have_two_or_three_neighbors() {
    let hex_map = create_hex_map(rows(&["bbb", "bbb", "bbb"])).unwrap();
    let count = |row: i32, col: i32| {
        let hex = offset_to_hex(row, col, HexType::Empty);
        hex_map.get_neighbors(&hex).len()
    };
    assert_eq!(count(0, 0), 2);
    assert_eq!(count(0, 2), 3);
    assert_eq!(count(2, 0), 2);
    assert_eq!(count(2, 2), 3);
    assert_eq!(count(1, 1), 6);
    let tall = create_hex_map(rows(&["bbb", "bbb", "bbb", "bbb"])).unwrap();
    let count = |row: i32, col: i32| {
        let hex = offset_to_hex(row, col, HexType::Empty);
        tall.get_neighbors(&hex).len()
    };
    assert_eq!(count(3, 0), 3);
    assert_eq!(count(3, 2), 2);
    assert_eq!(count(1, 1), 6);
    assert_eq!(count(2, 1), 6);
}

#[test]
fn neighbor_with_another_s_is_left_out() {
    let mut hex_map = HexMap::new();
    hex_map.add_hex(Hex::new(1, 0, -1, HexType::Empty));
    hex_map.add_hex(Hex::new(0, 1, 9, HexType::Empty));
    let found = hex_map.get_neighbors(&Hex::new(0, 0, 0, HexType::Empty));
    assert_eq!(places(&found), vec![(1, 0, -1)]);
    let found = hex_map.get_neighbors(&Hex::new(0, 0, 10, HexType::Empty));
    assert_eq!(places(&found), vec![(0, 1, 9)]);
}

#[test]
fn neighbors_at_the_edge_of_the_range() {
    let mut hex_map = HexMap::new();
    hex_map.add_hex(Hex::new(i32::MIN, 0, 0, HexType::Empty));
    hex_map.add_hex(Hex::new(i32::MAX - 1, 0, i32::MIN + 1, HexType::Empty));
    hex_map.add_hex(Hex::new(i32::MAX, -1, i32::MIN, HexType::Empty));
    let found = hex_map.get_neighbors(&Hex::new(i32::MAX, 0, i32::MIN, HexType::Empty));
    assert_eq!(places(&found), vec![(i32::MAX - 1, 0, i32::MIN + 1)]);
}

#[test]
fn cell_outside_the_grid_has_the_neighbors_beside_it() {
    let hex_map = create_hex_map(rows(&["bb", "bb"])).unwrap();
    let found = hex_map.get_neighbors(&Hex::new(2, 0, -2, HexType::Empty));
    assert_eq!(places(&found), vec![(1, 0, -1), (1, 1, -2)]);
    let found = hex_map.get_neighbors(&Hex::new(9, 9, -18, HexType::Empty));
    assert!(found.is_empty());
}
