pub mod cell_table;
pub mod coord_table;
pub mod dijkstra;
pub mod frontier;
pub mod hex;
pub mod hex_map;
pub mod search;
pub mod search_laws;
