pub mod bfs;
pub mod era;
pub mod graph;
pub mod player;
