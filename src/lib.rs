//! Similarity graphs over entities: construction from a table of linked
//! pairs, closeness centrality by breadth-first levels, and the densest
//! subgraph found by greedy minimum-degree peeling.
pub mod graph;
pub mod builder;
pub mod closeness;
pub mod densest;
pub mod table;
