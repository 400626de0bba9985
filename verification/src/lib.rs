//! An arena-backed directed graph whose nodes are addressed by stable,
//! caller-chosen identifiers, with resumable breadth-first and depth-first
//! traversal and a flat text codec for its topology.

pub mod error;
pub mod graph;
pub mod handler;
pub mod iterator;
pub mod node;
pub mod reach;
pub mod round_trip;
pub mod text;
