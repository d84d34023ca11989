//! Entries of `compile_commands.json` and where the file goes.

use vstd::prelude::*;

use crate::cxon::CxonConfig;
use crate::paths::{join_path, path_ends_with, spec_ends_with, spec_join};

verus! {

/// One entry of `compile_commands.json`.
pub struct CompileCommand {
    pub directory: String,
    pub command: String,
    pub file: String,
}

pub struct CompileCommandView {
    pub directory: Seq<char>,
    pub command: Seq<char>,
    pub file: Seq<char>,
}

impl View for CompileCommand {
    type V = CompileCommandView;

    open spec fn view(&self) -> CompileCommandView {
        CompileCommandView { directory: self.directory@, command: self.command@, file: self.file@ }
    }
}

impl Clone for CompileCommand {
    fn clone(&self) -> (r: Self)
        ensures
            r@ == self@,
    {
        CompileCommand {
            directory: self.directory.clone(),
            command: self.command.clone(),
            file: self.file.clone(),
        }
    }
}

impl CompileCommand {
    /// An empty compile command entry for one project directory.
    pub fn default(project_dir: &str) -> (r: Self)
        ensures
            r@ == (CompileCommandView { directory: project_dir@, command: Seq::empty(), file: Seq::empty() }),
    {
        CompileCommand { directory: project_dir.to_string(), command: String::new(), file: String::new() }
    }

    /// A command entry for one source file of a project directory.
    pub fn from_source(source_path: &str, project_dir: &str) -> (r: Self)
        ensures
            r@ == (CompileCommandView { directory: project_dir@, command: Seq::empty(), file: source_path@ }),
    {
        let mut command = Self::default(project_dir);
        command.file = source_path.to_string();
        command
    }
}

/// Where `compile_commands.json` is written: the configured location, in
/// which a directory receives the file, or else the build directory.
pub open spec fn spec_compile_commands_path(
    export_path: Option<Seq<char>>,
    build_dir: Seq<char>,
) -> Seq<char> {
    match export_path {
        Some(p) => if spec_ends_with(p, "compile_commands.json"@) {
            p
        } else {
            spec_join(p, "compile_commands.json"@)
        },
        None => spec_join(build_dir, "compile_commands.json"@),
    }
}

/// Where `compile_commands.json` is written, given whether the configured
/// location already names that file (`names_file`).
pub fn compile_commands_location(export_path: &Option<String>, names_file: bool, build_dir: &str) -> (r: String)
    ensures
        r@ == match export_path {
            Some(p) => if names_file {
                p@
            } else {
                spec_join(p@, "compile_commands.json"@)
            },
            None => spec_join(build_dir@, "compile_commands.json"@),
        },
{
    let file_name = "compile_commands.json";
    proof {
        reveal_strlit("compile_commands.json");
    }
    match export_path {
        Some(path) => {
            if !names_file {
                join_path(path.as_str(), file_name)
            } else {
                path.clone()
            }
        },
        None => join_path(build_dir, file_name),
    }
}

/// Computes where `compile_commands.json` is written for a configuration.
pub fn compile_commands_path(cxon: &CxonConfig) -> (r: String)
    ensures
        r@ == spec_compile_commands_path(cxon@.export_compile_commands_path, cxon@.build_dir),
{
    let names_file = match &cxon.export_compile_commands_path {
        Some(path) => path_ends_with(path.as_str(), "compile_commands.json"),
        None => false,
    };
    proof {
        reveal_strlit("compile_commands.json");
    }
    compile_commands_location(&cxon.export_compile_commands_path, names_file, cxon.build_dir.as_str())
}

} // verus!
