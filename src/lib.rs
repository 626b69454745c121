//! Shared library for bots that mirror a collection of objects into chat display channels.
//!
//! The verified core keeps, for each display channel, an index from object identifiers to
//! message identifiers, and decides at each reconciliation pass which messages are edited,
//! deleted and sent. It also holds the object database with a bounded undo history, the text
//! helpers used by searches and listings, and the command permission data.
pub mod command_data;
pub mod id_map;
pub mod errors;
pub mod object;
pub mod bot;
pub mod tools;
pub mod affichan;
pub mod multimessage;
