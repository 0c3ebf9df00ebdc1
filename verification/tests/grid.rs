use server::algorithms::hex::{Hex, HexType};
use server::algorithms::hex_map::HexMap;
use server::{create_hex_map, handle_request, offset_to_hex};

#[test]
fn test_hex() {
    let value: Hex = Hex::new(0, 0, 0, HexType::Empty);
    assert_eq!(value.q, 0);
    assert_eq!(value.r, 0);
    assert_eq!(value.s, 0);
}

#[test]
fn test_empty_hex_map() {
    let value: HexMap = HexMap::new();
    assert_eq!(value.size(), 0);
}

#[test]
fn test_hex_map_add_hex() {
    let mut value: HexMap = HexMap::new();
    let hex: Hex = Hex::new(0, 0, 0, HexType::Empty);
    value.add_hex(hex);
    assert_eq!(value.size(), 1);
}

#[test]
fn test_hex_map_get_hex() {
    let mut value: HexMap = HexMap::new();
    let hex: Hex = Hex::new(0, 0, 0, HexType::Empty);
    value.add_hex(hex);
    let hex_from_map: Option<&Hex> = value.get_hex(0, 0);
    match hex_from_map {
        Some(hex_from_map) => {
            assert_eq!(hex_from_map.q, 0);
            assert_eq!(hex_from_map.r, 0);
            assert_eq!(hex_from_map.s, 0);
        }
        None => {
            panic!("Hex not found in map");
        }
    }
}

#[test]
fn test_hex_map_get_invalid_hex() {
    let mut value: HexMap = HexMap::new();
    let hex: Hex = Hex::new(0, 0, 0, HexType::Empty);
    value.add_hex(hex);
    let hex_from_map: Option<&Hex> = value.get_hex(1, 1);
    match hex_from_map {
        Some(_) => {
            panic!("Hex found in map");
        }
        None => {
            assert!(true);
        }
    }
}

#[test]
fn test_hex_to_offset() {
    let hex: Hex = Hex::new(1, 2, -3, HexType::Empty);
    let offset: (i32, i32) = hex.to_offset_coord();
    assert_eq!(offset.0, 2);
    assert_eq!(offset.1, 2);
}

#[test]
fn test_offset_to_hex() {
    let value: Hex = offset_to_hex(-2, 2, HexType::Empty);
    assert_eq!(value.q, 3);
    assert_eq!(value.r, -2);
    assert_eq!(value.s, -1);
}

#[test]
fn test_create_hex_map() {
    let value: HexMap = create_hex_map(vec![
        vec!['b', 'b', 'b'],
        vec!['b', 'b', 'b'],
        vec!['b', 'b', 'b'],
    ])
    .unwrap();
    assert_eq!(value.size(), 9);
}

#[test]
fn test_create_hex_map_invalid_char() {
    let value = create_hex_map(vec![
        vec!['b', 'b', 'b'],
        vec!['b', 'b', 'b'],
        vec!['b', 'b', 'b'],
        vec!['b', 'b', 'i'],
    ]);

    match value {
        Ok(_) => {
            panic!("Invalid character in graph");
        }
        Err(err) => {
            assert_eq!(err, "Invalid character in graph");
        }
    }
}

#[test]
fn test_get_neighbors() {
    let hex_map = create_hex_map(vec![
        vec!['b', 'b', 'b'],
        vec!['b', 'b', 'b'],
        vec!['b', 'b', 'b'],
    ])
    .unwrap();
    let hex = hex_map.get_hex(1, 1).unwrap();
    let neighbors = hex_map.get_neighbors(hex);
    assert_eq!(neighbors.len(), 6);
}

#[test]
fn test_get_corner_neighbors() {
    let hex_map = create_hex_map(vec![
        vec!['b', 'b', 'b'],
        vec!['b', 'b', 'b'],
        vec!['b', 'b', 'b'],
    ])
    .unwrap();
    let hex = hex_map.get_hex(1, 2).unwrap();
    let neighbors = hex_map.get_neighbors(hex);
    assert_eq!(neighbors.len(), 3);
}

#[test]
fn test_dijkstra_algorithm_no_obstacles() {
    let graph = vec![
        vec!['s', 'b', 'b'],
        vec!['b', 'b', 'b'],
        vec!['b', 'b', 'e'],
    ];
    let path = handle_request("dijkstra".to_string(), [0, 0], [2, 2], graph);
    println!("{:?}", path);

    assert_eq!(path[0], "Hex(1,2,-3)");
    assert_eq!(path[1], "Hex(0,2,-2)");
    assert_eq!(path[2], "Hex(0,1,-1)");
    assert_eq!(path[3], "Hex(0,0,0)");
}

#[test]
fn test_dijkstra_algorithm_with_obstacles() {
    let graph = vec![
        vec!['s', 'b', 'b'],
        vec!['o', 'o', 'b'],
        vec!['o', 'o', 'e'],
    ];
    let path = handle_request("dijkstra".to_string(), [0, 0], [2, 2], graph);
    println!("{:?}", path);

    assert_eq!(path[0], "Hex(1,2,-3)");
    assert_eq!(path[1], "Hex(2,1,-3)");
    assert_eq!(path[2], "Hex(2,0,-2)");
    assert_eq!(path[3], "Hex(1,0,-1)");
    assert_eq!(path[4], "Hex(0,0,0)");
}

#[test]
fn test_dijkstra_algorithm_no_path() {
    let graph = vec![
        vec!['s', 'b', 'b'],
        vec!['o', 'o', 'o'],
        vec!['o', 'o', 'e'],
    ];
    let path = handle_request("dijkstra".to_string(), [0, 0], [2, 2], graph);
    println!("{:?}", path);

    assert_eq!(path[0], "No path found");
}
