//! A fixed-capacity in-memory record store with a line-oriented command
//! language: records are encoded into fixed-width slots of one byte arena.
pub mod error;
pub mod record;
pub mod table;
pub mod command;
