//! A single-process, file-persisted key-value store with optional per-entry
//! expiration, together with the pure halves of the shell, game and score
//! layers built around it.
//!
//! The store engine lives in [`kv_store`]; its canonical backing-file format
//! is implemented and proved in [`codec`], over the sublanguages of
//! [`digits`] and [`escape`], and [`persistence`] turns stores into backing
//! texts and back. Reading the wall clock, the one impure input, is
//! [`clock`]; file handling stays with the caller, which passes the text in
//! and out unchanged.

pub mod clock;
pub mod codec;
pub mod command;
pub mod digits;
pub mod entry;
pub mod escape;
pub mod game;
pub mod kv_store;
pub mod persistence;
pub mod text;
