//! A 2048-style sliding-tile engine on a 4x4 grid, with the contracts of
//! every move, spawn, terminal test and score stated over sequences.

pub mod game;
pub mod grid;
pub mod laws;
pub mod row;
pub mod score;
pub mod text;
pub mod training;
