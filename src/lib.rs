pub mod actions;
pub mod area;
pub mod components;
pub mod dungeon;
pub mod equipment;
pub mod level;
pub mod manager;
pub mod path;
pub mod planning;
mod random;
pub mod room;
pub mod tunneler;
pub mod turn;
pub mod vectors;
pub mod visibility;
pub mod world;
