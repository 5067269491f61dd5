//! An engine for branching interactive fiction: a story document is parsed
//! into a checked graph of rooms and choices, which is then played against a
//! per-session state and analysed for authoring mistakes.

pub mod analysis;
pub mod config;
pub mod errors;
pub mod game;
pub mod keyed;
pub mod parser;
pub mod text;
pub mod ui;
pub mod ui_trait;
pub mod world;
