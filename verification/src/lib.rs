//! Degrees of separation in a directed graph of named entities.
//!
//! Relationship records are read from text, exact duplicates are removed,
//! a directed graph is assembled from what is left, and a breadth-first
//! search gives the number of hops from one entity to every entity that
//! can be reached from it.

pub mod builder;
pub mod graph;
pub mod paths;
pub mod records;
pub mod search;
pub mod select;
pub mod text;

pub use builder::build_graph;
pub use builder::load_data;
pub use graph::CharacterGraph;
pub use records::csv_to_txt;
pub use records::read_csv;
pub use records::remove_duplicates;
pub use records::write_txt;
pub use search::six_degrees_to_all;
pub use search::DistanceMap;
pub use search::SearchError;
pub use select::chosen_name;
pub use select::random_start;
