//! A minimal in-memory key-value server core speaking a Redis-like wire
//! protocol: a streaming frame codec, an expiring key-value store with a
//! time-ordered expiration index, and the command layer that ties them
//! together. All I/O lives outside this crate; everything here is pure
//! logic over bytes, strings and integers, verified by Verus.

pub mod cmd;
pub mod connection;
pub mod db;
pub mod frame;
pub mod parse;
pub mod resp;
