//! An 11x11 Tafl board game: rules engine, symmetry reduction, heuristics
//! and an alpha-beta search engine.

pub mod space;
pub mod square_map;
pub mod board;
pub mod game;
pub mod symmetries;
pub mod heuristics;
pub mod alpha_beta;
pub mod game_tree;
pub mod policy;
pub mod live;
