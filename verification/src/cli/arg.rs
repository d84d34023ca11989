//! The project directory named on the command line.
//!
//! Supported forms:
//! - `cxon` (use current directory)
//! - `cxon <project_dir>`
//! - `cxon <path/to/cxon.json>`

use vstd::prelude::*;

use crate::error::ArgError;
use crate::paths::{path_file_name, path_parent, spec_file_name, spec_parent, str_eq};

verus! {

/// The parsed command line.
pub struct CliArgs {
    pub project_dir: String,
}

impl Clone for CliArgs {
    fn clone(&self) -> (r: Self)
        ensures
            r.project_dir@ == self.project_dir@,
    {
        CliArgs { project_dir: self.project_dir.clone() }
    }
}

/// The directory that a `cxon.json` file's parent path names: the parent,
/// or the current directory `.` when the file was named without one.
pub open spec fn parent_dir(p: Seq<char>) -> Seq<char> {
    if p.len() == 0 {
        "."@
    } else {
        p
    }
}

/// The project directory named by a command-line path: the directory
/// holding the file when the path names an existing `cxon.json` file,
/// otherwise the path itself.
pub open spec fn project_dir_spec(arg: Seq<char>, is_file: bool) -> Result<Seq<char>, ()> {
    if is_file {
        match spec_file_name(arg) {
            None => Err(()),
            Some(name) => if name == "cxon.json"@ {
                match spec_parent(arg) {
                    Some(p) => Ok(parent_dir(p)),
                    None => Err(()),
                }
            } else {
                Ok(arg)
            },
        }
    } else {
        Ok(arg)
    }
}

/// The project directory named by the command-line path `arg`, given
/// whether it names an existing file and what `Path::file_name` and
/// `Path::parent` give for it.
pub fn project_dir_from_parts(
    arg: &str,
    is_file: bool,
    file_name: Option<String>,
    parent: Option<String>,
) -> (r: Result<String, ArgError>)
    ensures
        match r {
            Ok(dir) => if is_file && file_name is Some && file_name->0@ == "cxon.json"@ {
                parent is Some && dir@ == parent_dir(parent->0@)
            } else {
                dir@ == arg@ && (is_file ==> file_name is Some)
            },
            Err(e) => is_file && match e {
                ArgError::MissingFileName => file_name is None,
                ArgError::MissingParent => file_name is Some && file_name->0@ == "cxon.json"@ && parent is None,
            },
        },
{
    if !is_file {
        return Ok(arg.to_string());
    }
    let name = match file_name {
        Some(n) => n,
        None => {
            return Err(ArgError::MissingFileName);
        },
    };
    proof {
        reveal_strlit("cxon.json");
        reveal_strlit(".");
    }
    if str_eq(name.as_str(), "cxon.json") {
        match parent {
            Some(p) => {
                if p.unicode_len() == 0 {
                    Ok(".".to_string())
                } else {
                    Ok(p)
                }
            },
            None => Err(ArgError::MissingParent),
        }
    } else {
        Ok(arg.to_string())
    }
}

/// Resolves the project directory from the path given on the command line;
/// `is_file` tells whether that path names an existing file.
pub fn project_dir_from_argument(arg: &str, is_file: bool) -> (r: Result<String, ArgError>)
    ensures
        match r {
            Ok(dir) => project_dir_spec(arg@, is_file) == Ok::<Seq<char>, ()>(dir@),
            Err(e) => project_dir_spec(arg@, is_file) is Err && (match e {
                ArgError::MissingFileName => spec_file_name(arg@) is None,
                ArgError::MissingParent => spec_file_name(arg@) == Some("cxon.json"@) && spec_parent(arg@) is None,
            }),
        },
{
    if !is_file {
        return Ok(arg.to_string());
    }
    let file_name = path_file_name(arg);
    let parent = path_parent(arg);
    proof {
        reveal_strlit("cxon.json");
    }
    project_dir_from_parts(arg, is_file, file_name, parent)
}

} // verus!
