pub mod adapters;
pub mod analyzer;
pub mod cli;
pub mod graph_laws;
pub mod license;
pub mod model;
pub mod render;
pub mod scan;
pub mod sort;
pub mod syntax;
pub mod text;
