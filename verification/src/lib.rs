//! A verified module-bundling core: import resolution, dependency-graph
//! construction, at-most-once transform caching, tree shaking, code
//! splitting, and source-map generation.
#![verifier::loop_isolation(false)]

pub mod bundler;
pub mod bytesutil;
pub mod cache;
mod config;
pub mod depsmanager;
pub mod graph;
pub mod logger;
pub mod plugin;
pub mod resolver;
pub mod scan;
pub mod sourcemap;
pub mod splitter;
pub mod strip;
pub mod treeshake;

pub use config::Config;
