//! A text adventure engine: a world of rooms and items, and the session
//! operations that move the player, pick items up and unlock doors.
pub mod command;
pub mod game;
pub mod laws;
pub mod model;
pub mod text;
