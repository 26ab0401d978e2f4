//! Build configuration: entry point, output locations, and the switches
//! that enable the optional pipeline stages.

use vstd::prelude::*;
use vstd::string::StrSliceExecFns;
use vstd::string::StringSliceAdditionalSpecFns;

verus! {

/// Configuration for one build invocation.
///
/// Paths are held as byte strings; the whole engine works on workspace-relative
/// paths made of `/`-separated segments.
pub struct Config {
    /// Path of the entry module, relative to the workspace root.
    pub entry_file: Vec<u8>,
    /// Path the assembled bundle is written to.
    pub output_file: Vec<u8>,
    /// Path the serialized source map is written to.
    pub sourcemap_file: Vec<u8>,
    /// Directory that receives chunk files, under `css`/`html`/`js` buckets.
    pub output_dir: Vec<u8>,
    /// Directory against which bare (non-relative) imports are resolved.
    pub search_path: Vec<u8>,
    /// Extensions tried, in order, when a resolved path does not exist.
    pub fallback_extensions: Vec<Vec<u8>>,
    /// Worker count requested by the caller. The engine itself is the
    /// single-worker execution path, which must be observably equivalent.
    pub max_threads: usize,
    /// Emit a source map alongside the bundle.
    pub generate_sourcemaps: bool,
    /// Prune modules unreachable from the entry before assembly.
    pub tree_shaking: bool,
    /// Extract imported modules into separately loadable chunk files.
    pub code_splitting: bool,
}

impl Config {
    /// Builds a configuration with the given entry and output paths and
    /// every optional stage disabled.
    pub fn new(entry_file: &str, output_file: &str) -> (c: Config)
        ensures
            c.entry_file@ == entry_file.spec_bytes(),
            c.output_file@ == output_file.spec_bytes(),
            c.sourcemap_file@ =~= output_file.spec_bytes(),
            c.output_dir@ =~= Seq::<u8>::empty(),
            c.search_path@ =~= Seq::<u8>::empty(),
            c.fallback_extensions@ =~= Seq::<Vec<u8>>::empty(),
            c.max_threads == 1,
            !c.generate_sourcemaps,
            !c.tree_shaking,
            !c.code_splitting,
    {
        Config {
            entry_file: entry_file.as_bytes_vec(),
            output_file: output_file.as_bytes_vec(),
            sourcemap_file: output_file.as_bytes_vec(),
            output_dir: Vec::new(),
            search_path: Vec::new(),
            fallback_extensions: Vec::new(),
            max_threads: 1,
            generate_sourcemaps: false,
            tree_shaking: false,
            code_splitting: false,
        }
    }
}

} // verus!
