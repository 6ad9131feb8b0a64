pub mod interval_tree;
pub mod priority_queue;

pub use interval_tree::{Interval, IntervalTree};
pub use priority_queue::PriorityQueue;
