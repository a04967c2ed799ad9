//! # Karma: an open index format for Apache Iceberg
//!
//! Iceberg gives table metadata and column *statistics*, but no index format: the
//! min/max zone maps and Bloom filters an engine needs to *skip work*. This crate
//! defines that format, stored in Iceberg's own sidecar container, Puffin, and the
//! rules by which an engine uses it.
//!
//! - [`zonemap`]: the `karma-zonemap-v1` blob, per-zone column bounds and counts.
//! - [`bloom`]: the `karma-bloom-v1` blob, split-block Bloom filters.
//! - [`puffin`]: the Puffin container.
//! - [`prune`]: a predicate and an index make a *conservative* set of zones to read.
//! - [`translate`]: query filters as predicates; [`table`]: tables that prune by them.
//! - [`sidecar`]: an index built from the row groups of a file.
//! - [`bench`](mod@bench): the benchmark's data, queries and analytical report.
//! - [`json_path`], [`session`], [`catalog`], [`server`]: the rules of the SQL front.
//! - [`bytes`], [`float`], [`text`]: byte strings, float patterns and texts.
pub mod bench;
pub mod bloom;
pub mod bytes;
pub mod catalog;
pub mod float;
pub mod json_path;
pub mod prune;
pub mod puffin;
pub mod server;
pub mod session;
pub mod sidecar;
pub mod table;
pub mod text;
pub mod translate;
pub mod zonemap;

pub use bloom::value_hash;
pub use bloom::Bloom;
pub use bloom::BloomEntry;
pub use bloom::BloomError;
pub use bloom::ZoneBlooms;
pub use bloom::BLOOM_BLOB_TYPE;
pub use bloom::DEFAULT_BITS_PER_VALUE;
pub use prune::compare;
pub use prune::surviving_zones;
pub use prune::surviving_zones_indexed;
pub use prune::Predicate;
pub use puffin::read_puffin;
pub use puffin::write_puffin;
pub use puffin::BlobMetadata;
pub use puffin::BlobToWrite;
pub use puffin::PuffinError;
pub use puffin::PuffinFile;
pub use sidecar::IndexField;
pub use sidecar::KarmaParquetError;
pub use sidecar::Sidecar;
pub use table::KarmaZoneTable;
pub use table::ParquetZoneTable;
pub use table::SnapshotTable;
pub use zonemap::ColumnStats;
pub use zonemap::ColumnTypes;
pub use zonemap::IcebergType;
pub use zonemap::Value;
pub use zonemap::ZoneMap;
pub use zonemap::ZoneMapError;
pub use zonemap::ZoneStats;
pub use zonemap::ZONEMAP_BLOB_TYPE;
