//! An incremental build / resource-generation engine.
//!
//! Resources are registered declaratively; the engine expands their
//! requirements into a dependency graph and a table of claimed output
//! paths, rejects cycles and conflicting claims, and orders generation
//! into topological layers.  A cache subsystem records content hashes
//! per target so that a caller-level build loop can skip targets whose
//! inputs have not changed.

mod builder;
mod cache;
mod error;
mod filter;
mod graph;
mod html;
mod paths;
mod registry;
mod resource;
pub mod structure;
mod targets;

pub use builder::{Builder, RECURSION_LIMIT};
pub use cache::{blake3_hex, content_hash, decide_target, is_hex_digest, lemma_cache_round_trip, lemma_dep_location_round_trip, lemma_incremental_rebuild, needs_rebuild, Cache, FsCache, MemCache, NoCache, TargetDecision};
pub use error::BuildError;
pub use filter::{filter_allows, regex_matches, regex_valid};
pub use targets::{Analyze, CopyDir, CopyDirBuilder, Target};
pub use graph::{lemma_directory_file_layers, DependencyGraph};
pub use html::{DangerouslySetInnerHTML, ElementFragment, HTML5Doctype, Html, Render, RenderFile, SimpleElement};
pub use paths::{append_ext_hash, has_hash_ext, join_path, parent_of, strip_extension, strip_prefix_dir};
pub use registry::Registry;
pub use resource::{CopyFile, Custom, Dependency, Directory, Registration, Resource, Root, VirtualFile};
pub use resource::extract_content;
pub use structure::Structure;
