//! Verified core of an OpenStreetMap routing engine: graph building with
//! turn restrictions, A* routing, route bookkeeping and the small pieces of
//! logic behind the HTTP and FFI front ends.

pub mod astar;
pub mod builder;
pub mod costheap;
pub mod edges;
pub mod errors;
pub mod graph;
pub mod heap;
pub mod indexer;
pub mod interner;
pub mod landmarks;
pub mod queue;
pub mod restriction;
pub mod routegraph;
pub mod routing;
pub mod server;
pub mod shortest;
pub mod text;
pub mod turns;
pub mod osm;
pub mod osmxml;
pub mod pqueue;
pub mod types;
pub mod verdict;
