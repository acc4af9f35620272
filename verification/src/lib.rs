//! A game of monster teams that fight in rounds.
pub mod arena;
pub mod arena_laws;
pub mod input;
pub mod logic;
pub mod server;
pub mod server_laws;
pub mod text;
