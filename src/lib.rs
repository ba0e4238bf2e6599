//! A small in-memory key-value server core: the wire codec, the command
//! table with its request validator, and the key-value store.
pub mod commands;
pub mod db;
pub mod handler;
pub mod resp;
