use vstd::prelude::*;

pub mod archive;
pub mod customkey;
pub mod game;
pub mod launch;
pub mod laws;
pub mod maps;
pub mod order;
pub mod shape;
pub mod scenario;
pub mod text;

verus! {
} // verus!
