pub mod astar;
pub mod graph;
pub mod node;
pub mod priority_queue;
pub mod route;
pub mod search;

pub use astar::{AStar, AStarError};
pub use graph::Graph;
pub use node::{Direction, Node, Position};
pub use priority_queue::{PriorityQueue, State};
