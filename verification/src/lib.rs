use vstd::prelude::*;

pub mod model;
pub mod model_laws;
pub mod example;
pub mod level_gen;
pub mod editor;
pub mod pubsub;
pub mod grid;
pub mod tiles;
pub mod dungeon;
pub mod skeleton;
pub mod fw;
pub mod scene;
pub mod parts;
pub mod contacts;
pub mod sprite_sheet;

verus! {

} // verus!
