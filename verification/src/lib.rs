//! A Go engine: the rules of play with undo and redo, scoring, positional
//! analysis and a searching opponent.

pub mod board;
pub mod chain;
pub mod rules;
pub mod liveness;
pub mod history;
pub mod record;
pub mod game;
pub mod count;
pub mod score;
pub mod reading;
pub mod census;
pub mod influence;
pub mod estimate;
pub mod symmetry;
pub mod laws;
pub mod fairplay;
pub mod terrain;
pub mod tactics;
pub mod random;
pub mod opening;
pub mod corners;
pub mod candidates;
pub mod merit;
pub mod search;
pub mod minimax;
pub mod advisor;
pub mod advice;
pub mod counsel;
