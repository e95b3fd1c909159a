//! An in-memory approximate nearest neighbour index over fixed-point vectors:
//! the layered proximity graph, its distance kernels, its snapshot records
//! and the registry that holds the indexes of one process.

pub mod adapter;
pub mod answer;
pub mod backend;
pub mod cand;
pub mod codec;
pub mod command;
pub mod delete;
pub mod error;
pub mod fields;
pub mod graph;
pub mod index;
pub mod insert;
pub mod kann;
pub mod laws;
pub mod level;
pub mod metrics;
pub mod model;
pub mod reader;
pub mod records;
pub mod registry;
pub mod reply;
pub mod restore;
pub mod roundtrip;
pub mod search;
pub mod select;
pub mod snapshot;
pub mod store;
pub mod validate;
