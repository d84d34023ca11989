//! Per-module project configuration.

use vstd::prelude::*;

use crate::error::BuildError;
use crate::paths::{spec_to_lowercase, str_eq, to_lowercase};
use crate::toolchain::{TargetType, ToolChain, ToolChainTrait};

verus! {

/// A reference from a module to one of its child modules.
pub struct ModuleRef {
    /// Location of the child module, relative to the referring module's root.
    pub path: String,
}

impl DeepView for ModuleRef {
    type V = Seq<char>;

    open spec fn deep_view(&self) -> Seq<char> {
        self.path@
    }
}

impl ModuleRef {
    pub fn path(&self) -> (r: &str)
        ensures
            r@ == self.path@,
    {
        self.path.as_str()
    }
}

impl Clone for ModuleRef {
    fn clone(&self) -> (r: Self)
        ensures
            r.deep_view() == self.deep_view(),
    {
        ModuleRef { path: self.path.clone() }
    }
}

/// The configuration of one module, as read from its `cxon.json`.
pub struct CxonConfig {
    pub project: String,
    pub target_name: String,
    pub target_type: TargetType,
    pub toolchain: String,
    pub threads: Option<usize>,
    /// Root directory of the module.
    pub project_dir: String,
    pub build_dir: String,
    pub output_dir: String,
    pub flags: Option<Vec<String>>,
    pub cflags: Option<Vec<String>>,
    pub cxxflags: Option<Vec<String>>,
    pub defines: Option<Vec<String>>,
    pub include_dirs: Option<Vec<String>>,
    pub sources: Option<Vec<String>>,
    /// Link search directories.
    pub link: Option<Vec<String>>,
    /// Libraries to link against.
    pub libs: Option<Vec<String>>,
    /// Child modules.
    pub modules: Option<Vec<ModuleRef>>,
    pub export_compile_commands: bool,
    pub export_compile_commands_path: Option<String>,
    /// Artifacts of dependency modules, linked as plain files.
    pub extra_link_files: Vec<String>,
}

/// The mathematical content of a `CxonConfig`.
pub struct CxonConfigView {
    pub project: Seq<char>,
    pub target_name: Seq<char>,
    pub target_type: TargetType,
    pub toolchain: Seq<char>,
    pub threads: Option<usize>,
    pub project_dir: Seq<char>,
    pub build_dir: Seq<char>,
    pub output_dir: Seq<char>,
    pub flags: Option<Seq<Seq<char>>>,
    pub cflags: Option<Seq<Seq<char>>>,
    pub cxxflags: Option<Seq<Seq<char>>>,
    pub defines: Option<Seq<Seq<char>>>,
    pub include_dirs: Option<Seq<Seq<char>>>,
    pub sources: Option<Seq<Seq<char>>>,
    pub link: Option<Seq<Seq<char>>>,
    pub libs: Option<Seq<Seq<char>>>,
    pub modules: Option<Seq<Seq<char>>>,
    pub export_compile_commands: bool,
    pub export_compile_commands_path: Option<Seq<char>>,
    pub extra_link_files: Seq<Seq<char>>,
}

impl View for CxonConfig {
    type V = CxonConfigView;

    open spec fn view(&self) -> CxonConfigView {
        CxonConfigView {
            project: self.project@,
            target_name: self.target_name@,
            target_type: self.target_type,
            toolchain: self.toolchain@,
            threads: self.threads,
            project_dir: self.project_dir@,
            build_dir: self.build_dir@,
            output_dir: self.output_dir@,
            flags: self.flags.deep_view(),
            cflags: self.cflags.deep_view(),
            cxxflags: self.cxxflags.deep_view(),
            defines: self.defines.deep_view(),
            include_dirs: self.include_dirs.deep_view(),
            sources: self.sources.deep_view(),
            link: self.link.deep_view(),
            libs: self.libs.deep_view(),
            modules: self.modules.deep_view(),
            export_compile_commands: self.export_compile_commands,
            export_compile_commands_path: self.export_compile_commands_path.deep_view(),
            extra_link_files: self.extra_link_files.deep_view(),
        }
    }
}

/// The toolchain family that a toolchain name selects, compared without
/// regard to case.
pub open spec fn toolchain_of_name(name: Seq<char>) -> Option<ToolChain> {
    let lower = spec_to_lowercase(name);
    if lower == "gnu"@ {
        Some(ToolChain::GNU())
    } else if lower == "llvm"@ {
        Some(ToolChain::LLVM())
    } else if lower == "msvc"@ {
        Some(ToolChain::MSVC())
    } else {
        None
    }
}

/// Each entry of `items` with `prefix` put in front of it.
pub open spec fn prefixed(prefix: Seq<char>, items: Option<Seq<Seq<char>>>) -> Seq<Seq<char>> {
    match items {
        Some(s) => s.map_values(|x: Seq<char>| prefix + x),
        None => Seq::empty(),
    }
}

pub fn clone_strings(v: &Vec<String>) -> (r: Vec<String>)
    ensures
        r.deep_view() == v.deep_view(),
{
    let mut r: Vec<String> = Vec::new();
    let mut i: usize = 0;
    while i < v.len()
        invariant
            i <= v.len(),
            r.len() == i,
            forall|k: int| 0 <= k < i ==> #[trigger] r@[k]@ == v@[k]@,
        decreases v.len() - i,
    {
        r.push(v[i].clone());
        i = i + 1;
    }
    assert(r.deep_view() =~= v.deep_view());
    r
}

pub fn clone_opt_strings(v: &Option<Vec<String>>) -> (r: Option<Vec<String>>)
    ensures
        r.deep_view() == v.deep_view(),
{
    match v {
        Some(items) => Some(clone_strings(items)),
        None => None,
    }
}

fn clone_opt_string(v: &Option<String>) -> (r: Option<String>)
    ensures
        r.deep_view() == v.deep_view(),
{
    match v {
        Some(s) => Some(s.clone()),
        None => None,
    }
}

fn clone_module_refs(v: &Option<Vec<ModuleRef>>) -> (r: Option<Vec<ModuleRef>>)
    ensures
        r.deep_view() == v.deep_view(),
{
    match v {
        Some(items) => {
            let mut out: Vec<ModuleRef> = Vec::new();
            let mut i: usize = 0;
            while i < items.len()
                invariant
                    i <= items.len(),
                    out.len() == i,
                    forall|k: int| 0 <= k < i ==> #[trigger] out@[k].deep_view() == items@[k].deep_view(),
                decreases items.len() - i,
            {
                out.push(items[i].clone());
                i = i + 1;
            }
            assert(out.deep_view() =~= items.deep_view());
            Some(out)
        },
        None => None,
    }
}

impl Clone for CxonConfig {
    fn clone(&self) -> (r: Self)
        ensures
            r@ == self@,
    {
        CxonConfig {
            project: self.project.clone(),
            target_name: self.target_name.clone(),
            target_type: self.target_type,
            toolchain: self.toolchain.clone(),
            threads: self.threads,
            project_dir: self.project_dir.clone(),
            build_dir: self.build_dir.clone(),
            output_dir: self.output_dir.clone(),
            flags: clone_opt_strings(&self.flags),
            cflags: clone_opt_strings(&self.cflags),
            cxxflags: clone_opt_strings(&self.cxxflags),
            defines: clone_opt_strings(&self.defines),
            include_dirs: clone_opt_strings(&self.include_dirs),
            sources: clone_opt_strings(&self.sources),
            link: clone_opt_strings(&self.link),
            libs: clone_opt_strings(&self.libs),
            modules: clone_module_refs(&self.modules),
            export_compile_commands: self.export_compile_commands,
            export_compile_commands_path: clone_opt_string(&self.export_compile_commands_path),
            extra_link_files: clone_strings(&self.extra_link_files),
        }
    }
}

pub(crate) fn prefix_all(prefix: &str, items: &Option<Vec<String>>) -> (r: Vec<String>)
    ensures
        r.deep_view() == prefixed(prefix@, items.deep_view()),
{
    let mut r: Vec<String> = Vec::new();
    match items {
        Some(v) => {
            let mut i: usize = 0;
            while i < v.len()
                invariant
                    i <= v.len(),
                    r.len() == i,
                    forall|k: int| 0 <= k < i ==> #[trigger] r@[k]@ == prefix@ + v@[k]@,
                decreases v.len() - i,
            {
                let mut s = prefix.to_string();
                s.append(v[i].as_str());
                r.push(s);
                i = i + 1;
            }
            assert(r.deep_view() =~= prefixed(prefix@, items.deep_view()));
        },
        None => {
            assert(r.deep_view() =~= prefixed(prefix@, items.deep_view()));
        },
    }
    r
}

/// The toolchain family named by `lower`, a toolchain name already in
/// lower case; `name` is the name as configured, for the error.
pub fn toolchain_from_lowercase(lower: &str, name: &String) -> (r: Result<ToolChain, BuildError>)
    ensures
        match r {
            Ok(t) => (lower@ == "gnu"@ && t == ToolChain::GNU()) || (lower@ == "llvm"@ && t == ToolChain::LLVM())
                || (lower@ == "msvc"@ && t == ToolChain::MSVC()),
            Err(e) => lower@ != "gnu"@ && lower@ != "llvm"@ && lower@ != "msvc"@
                && (e matches BuildError::UnknownToolchain(n) && n@ == name@),
        },
{
    proof {
        reveal_strlit("gnu");
        reveal_strlit("llvm");
        reveal_strlit("msvc");
    }
    if str_eq(lower, "gnu") {
        Ok(ToolChain::GNU())
    } else if str_eq(lower, "llvm") {
        Ok(ToolChain::LLVM())
    } else if str_eq(lower, "msvc") {
        Ok(ToolChain::MSVC())
    } else {
        Err(BuildError::UnknownToolchain(name.clone()))
    }
}

impl CxonConfig {
    /// The toolchain family that the configuration selects.
    pub fn get_toolchain(&self) -> (r: Result<ToolChain, BuildError>)
        ensures
            match r {
                Ok(t) => toolchain_of_name(self.toolchain@) == Some(t),
                Err(e) => toolchain_of_name(self.toolchain@) is None && (e matches BuildError::UnknownToolchain(n) && n@ == self.toolchain@),
            },
    {
        let lower = to_lowercase(self.toolchain.as_str());
        proof {
            reveal_strlit("gnu");
            reveal_strlit("llvm");
            reveal_strlit("msvc");
            // The three names differ in their first letter.
            assert("gnu"@[0] == 'g' && "llvm"@[0] == 'l' && "msvc"@[0] == 'm');
        }
        toolchain_from_lowercase(lower.as_str(), &self.toolchain)
    }

    pub fn get_target_type(&self) -> (r: TargetType)
        ensures
            r == self.target_type,
    {
        self.target_type
    }

    pub fn get_target_name(&self) -> (r: String)
        ensures
            r@ == self.target_name@,
    {
        self.target_name.clone()
    }

    /// Forgets every dependency artifact recorded for linking.
    pub fn clear_extra_link_files(&mut self)
        ensures
            final(self)@ == (CxonConfigView { extra_link_files: Seq::empty(), ..old(self)@ }),
    {
        self.extra_link_files = Vec::new();
        assert(self.extra_link_files.deep_view() =~= Seq::<Seq<char>>::empty());
    }

    /// Records one more dependency artifact for linking.
    pub fn add_extra_link_file(&mut self, path: String)
        ensures
            final(self)@ == (CxonConfigView {
                extra_link_files: old(self)@.extra_link_files.push(path@),
                ..old(self)@
            }),
    {
        self.extra_link_files.push(path);
        assert(self.extra_link_files.deep_view() =~= old(self)@.extra_link_files.push(path@));
    }

    /// The recorded dependency artifacts, one linker argument each.
    pub fn get_extra_link_file_args(&self) -> (r: Vec<String>)
        ensures
            r.deep_view() == self@.extra_link_files,
    {
        clone_strings(&self.extra_link_files)
    }

    /// One link-directory argument per entry of `link`.
    pub fn get_link_dir_args<T: ToolChainTrait>(&self) -> (r: Vec<String>)
        ensures
            r.deep_view() == prefixed(T::LINK_DIR_FLAG_PREFIX@, self@.link),
    {
        prefix_all(T::LINK_DIR_FLAG_PREFIX, &self.link)
    }

    /// One library argument per entry of `libs`.
    pub fn get_lib_args<T: ToolChainTrait>(&self) -> (r: Vec<String>)
        ensures
            r.deep_view() == prefixed(T::LINK_LIB_FLAG_PREFIX@, self@.libs),
    {
        prefix_all(T::LINK_LIB_FLAG_PREFIX, &self.libs)
    }
}

} // verus!
