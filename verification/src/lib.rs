//! The verified core of a storage engine, its wire protocols and a reactive
//! UI runtime. Everything here is pure computation on plain values; files,
//! sockets, clocks and GPUs live in the program around it.

#![allow(unused_imports)]
#![allow(dead_code)]

pub mod appfront;
pub mod be;
pub mod bloom;
pub mod btree;
pub mod bytemap;
pub mod cache;
pub mod canopy_index;
pub mod database;
pub mod flux;
pub mod framed;
pub mod geo_index;
pub mod graph_index;
pub mod json;
pub mod lease;
pub mod order;
pub mod ranking;
pub mod sstable;
pub mod strmap;
pub mod synapse;
pub mod text;
pub mod ts_index;
pub mod vector;
pub mod wal;
pub mod wedge;
pub mod wire;
