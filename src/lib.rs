//! Ingestion core of a columnar dataframe engine: delimited-text records are
//! split, decoded into typed columns and assembled into tables, and tables (or
//! the plan to read them) are held in lazily materialized partitions.
pub mod bulk;
pub mod cell;
pub mod decode;
pub mod error;
pub mod expr;
pub mod infer;
pub mod laws;
pub mod options;
pub mod partition;
pub mod reader;
pub mod records;
pub mod schema;
pub mod sizing;
pub mod stats;
pub mod table;
