//! The call-graph core of a code index: which symbol a call site reaches,
//! which file an import names, which packages a manifest declares, and the
//! graph measures that are read off the resolved edges.
//!
//! Everything here works on plain values. Reading files, walking trees and
//! talking to a database stay with the caller.

pub mod boundary;
pub mod cache;
pub mod churn;
pub mod context;
pub mod coreness;
pub mod coverage_paths;
pub mod cycles;
pub mod digest;
pub mod digest_laws;
pub mod digraph;
pub mod discovery;
pub mod documents;
pub mod driver;
pub mod edges;
pub mod extraction;
pub mod extraction_laws;
pub mod go_module;
pub mod graph;
pub mod graph_laws;
pub mod identity;
pub mod import_laws;
pub mod incremental;
pub mod index_laws;
pub mod inheritance_laws;
pub mod jvm_package;
pub mod language_laws;
pub mod manifest_laws;
pub mod maps;
pub mod migration;
pub mod modules;
pub mod names;
pub mod naming;
pub mod package_deps;
pub mod path_laws;
pub mod paths;
pub mod pysyspath;
pub mod reconcile;
pub mod resolution_laws;
pub mod search_path_laws;
pub mod text;
pub mod type_resolve;
pub mod types;
