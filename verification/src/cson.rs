//! The earlier `cson.json` project format.

use vstd::prelude::*;

verus! {

/// A project configuration in the `cson.json` format.
pub struct CsonConfig {
    // project settings
    pub project: String,
    pub target_name: String,
    pub cc: String,
    pub cxx: String,
    // building settings
    pub threads: Option<usize>,
    // temp directory
    pub build_dir: Option<String>,
    pub output_dir: Option<String>,
    // compiler flags
    pub flags: Option<Vec<String>>,
    pub cflags: Option<Vec<String>>,
    pub cxxflags: Option<Vec<String>>,
    // source files
    pub sources: Option<Vec<String>>,
    // compiler defines and search paths
    pub defines: Option<Vec<String>>,
    pub include_dirs: Option<Vec<String>>,
    pub link: Option<Vec<String>>,
    pub libs: Option<Vec<String>>,
}

} // verus!
