pub mod anneal;
pub mod geometry;
pub mod npe;
mod rng;
pub mod tree;

pub use anneal::Stage;
pub use geometry::{Cut, Rect};
pub use npe::{TreeItem, NPE};
pub use tree::{Node, SlicingTree};
