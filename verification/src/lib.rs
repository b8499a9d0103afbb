pub mod grid;
pub mod carving;
pub mod count;
pub mod random;
pub mod hunt_kill;
pub mod perfect;
pub mod distance;
pub mod display;
pub mod walls;
