//! Errors that the library reports instead of ending the process.

use vstd::prelude::*;

verus! {

/// Errors of build planning and build execution.
#[derive(Debug)]
pub enum BuildError {
    /// A module depends, directly or through others, on itself.
    Cycle(String),
    /// No folder name could be derived for a module's artifact directory.
    ModuleFolderName(String),
    /// The plan holds no target for its root module.
    RootTargetMissing,
    /// A configuration names a toolchain family that is not known.
    UnknownToolchain(String),
}

/// Errors of loading the module graph.
#[derive(Debug)]
pub enum GraphError {
    /// The configuration found at this path has not been read yet.
    ConfigNeeded(String),
    /// A module depends, directly or through others, on itself.
    CyclicModule(String),
    /// A child module selects another toolchain family than its parent.
    ToolchainMismatch { parent: String, child: String },
}

/// A loading error as plain values.
pub enum GraphErrorView {
    ConfigNeeded(Seq<char>),
    CyclicModule(Seq<char>),
    ToolchainMismatch { parent: Seq<char>, child: Seq<char> },
}

impl View for GraphError {
    type V = GraphErrorView;

    open spec fn view(&self) -> GraphErrorView {
        match self {
            GraphError::ConfigNeeded(p) => GraphErrorView::ConfigNeeded(p@),
            GraphError::CyclicModule(id) => GraphErrorView::CyclicModule(id@),
            GraphError::ToolchainMismatch { parent, child } => GraphErrorView::ToolchainMismatch {
                parent: parent@,
                child: child@,
            },
        }
    }
}

/// Errors of resolving the project directory from the command line.
#[derive(Debug)]
pub enum ArgError {
    /// The given file path has no file name.
    MissingFileName,
    /// The given `cxon.json` path has no parent directory.
    MissingParent,
}

} // verus!
