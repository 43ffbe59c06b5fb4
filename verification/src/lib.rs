//! A two-player territory game on a square grid: the board with its legality rules, the
//! scoring by connected regions of a dual graph, and players that search by random playouts.

pub mod board;
pub mod components;
pub mod dual;
pub mod geometry;
pub mod graph;
pub mod grid;
pub mod json;
pub mod lists;
pub mod opening;
pub mod players;
pub mod regions;
pub mod rules;
pub mod sources;
pub mod uct;

pub use board::Board;
pub use geometry::{opponent_of, Color, Coord, Dir, Move, NodePos};
pub use graph::{Graph, Node};
pub use grid::{CellView, Grid};
pub use json::{BoardJson, PossibleMove, Root, Stone};
pub use players::{convert_seed, NaiveMonteCarlo, RandomPlayer};
pub use rules::BoardView;
pub use uct::{Entry, UCTNode};
