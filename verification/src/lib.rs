//! A Sokoban solver.
//!
//! A level is read twice: as it is played, and with boxes and goals in
//! each other's place. On the second board the player pulls the boxes from
//! the goals to where the level has its boxes; read backwards, such a walk
//! is a sequence of pushes that solves the level. The search goes depth
//! first over pulls, keeps the least depth at which it has seen each state,
//! and takes every pull back on its way up.
//!
//! - [`node`]: cells and tile kinds.
//! - [`level`]: the grammar of the level string, and the board it spells.
//! - [`board`]: the model of a board that the contracts speak of.
//! - [`sokoban`]: the board itself, with its hash, its pull and its undo.
//! - [`reach`]: walks of the player, and the flood fill that finds them.
//! - [`roam`]: distances with only walls in the way, found breadth first.
//! - [`zones`]: the regions from which the player can touch a box.
//! - [`search`]: what the search does, step by step, and what a solution is.
//! - [`solver`]: the solver, which runs the search from each zone.
//! - [`text`]: numbers, cells and boards as text.
//! - [`laws`]: what holds of every level and every board.

pub mod board;
pub mod laws;
pub mod level;
pub mod node;
pub mod reach;
pub mod roam;
pub mod search;
pub mod sokoban;
pub mod solver;
pub mod text;
pub mod zones;
