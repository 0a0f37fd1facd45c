//! The core of a small in-memory key-value server: the frames of its wire
//! protocol, the commands that they hold, the store with its index of
//! expiry, and the snapshots of the store.
//!
//! Every function states what it computes over a mathematical model: frames
//! are read as `frame::scan_frame` says and written as `wire::wire` says, the
//! store is a mapping from keys to values (`db::Store`), commands change it
//! as `runner::ran` says, and a snapshot holds the bytes that
//! `rdb::snapshot_bytes` gives. What is taken from other crates and from the
//! parts of the standard library that have no verified model is named in
//! `cursor`, `text`, `number` and `clock`.

pub mod clock;
pub mod connection;
pub mod cursor;
pub mod db;
pub mod frame;
pub mod number;
pub mod order;
pub mod rdb;
pub mod runner;
pub mod text;
pub mod wire;
