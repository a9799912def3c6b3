//! Cross-repo front-end intelligence: the pure logic behind impact scans,
//! context packs, version drift, duplicate and clone detection.
pub mod text;
pub mod analyzer;
pub mod digits;
pub mod fuzzy;
pub mod impact;
pub mod json;
pub mod discover;
pub mod drift;
pub mod order;
pub mod paths;
pub mod resolver;
pub mod strmap;
pub mod sort;
pub mod spans;
pub mod fingerprint;
pub mod decls;
pub mod clones;
pub mod dupes;
pub mod context;
pub mod select;
pub mod tally;
pub mod definition;
pub mod report;
pub mod explorer;
pub mod walk;
pub mod mcp;
pub mod messages;
