use vstd::prelude::*;

pub mod text;
pub mod api;
pub mod types;
pub mod parser;
pub mod db;
pub mod keyed;
pub mod sprites;
pub mod ui;
pub mod fleet_cli;
pub mod fleet_data;
pub mod boost_map;
pub mod decryptor;
pub mod tiles;
pub mod search;

verus! {

} // verus!
