//! Toolchain abstraction layer.
//!
//! `ToolChainTrait` gathers the command names, flags and file extensions of
//! one toolchain family.

use vstd::prelude::*;

use crate::paths::{contains_separator, has_separator};

pub mod compiler;
pub mod gnu;
pub mod linker;
pub mod llvm;
pub mod msvc;

verus! {

/// The toolchain families a project can select.
#[derive(Clone, Copy, Debug, PartialEq, Eq, Structural)]
pub enum ToolChain {
    GNU(),
    LLVM(),
    MSVC(),
}

/// What a target produces.
#[derive(Clone, Copy, Debug, PartialEq, Eq, Structural)]
pub enum TargetType {
    ObjectLib,
    Executable,
    StaticLib,
    SharedLib,
}

/// Command names, flags and extensions of one toolchain family.
///
/// The four extensions are bare extensions such as `a` or `exe`: they hold
/// no path separator (see `plain_extensions`), which the functions that
/// put them on output paths require.
pub trait ToolChainTrait {
    const CC: &'static str;
    const CXX: &'static str;
    const DEBUG_FLAG: &'static str;

    const EXECUTABLE_LINKER: &'static str;
    const STATIC_LIB_LINKER: &'static str;
    const SHARED_LIB_LINKER: &'static str;
    const OBJECT_LIB_LINKER: &'static str;

    const EXECUTABLE_OUTPUT_FLAG: &'static str;
    const STATIC_LIB_OUTPUT_FLAG: &'static str;
    const SHARED_LIB_OUTPUT_FLAG: &'static str;
    const OBJECT_LIB_OUTPUT_FLAG: &'static str;

    const EXECUTABLE_EXTENSION: &'static str;
    const STATIC_LIB_EXTENSION: &'static str;
    const SHARED_LIB_EXTENSION: &'static str;
    const OBJECT_LIB_EXTENSION: &'static str;

    const ONLY_COMPILE_FLAG: &'static str;
    const DEFINE_FLAG_PREFIX: &'static str;
    const INCLUDE_FLAG_PREFIX: &'static str;
    const LINK_DIR_FLAG_PREFIX: &'static str;
    const LINK_LIB_FLAG_PREFIX: &'static str;
}

/// None of the output extensions of `T` holds a path separator.
pub open spec fn plain_extensions<T: ToolChainTrait>() -> bool {
    &&& !has_separator(T::EXECUTABLE_EXTENSION@)
    &&& !has_separator(T::STATIC_LIB_EXTENSION@)
    &&& !has_separator(T::SHARED_LIB_EXTENSION@)
    &&& !has_separator(T::OBJECT_LIB_EXTENSION@)
}

/// Tells whether the output extensions of `T` are free of path separators.
pub fn has_plain_extensions<T: ToolChainTrait>() -> (r: bool)
    ensures
        r == plain_extensions::<T>(),
{
    !contains_separator(T::EXECUTABLE_EXTENSION) && !contains_separator(T::STATIC_LIB_EXTENSION)
        && !contains_separator(T::SHARED_LIB_EXTENSION) && !contains_separator(T::OBJECT_LIB_EXTENSION)
}

/// The executables of `T` that must be found in `PATH`, in the order in
/// which they are checked: the C compiler, the C++ compiler, then the
/// executable, static library, shared library and object library linkers.
pub open spec fn required_executables<T: ToolChainTrait>() -> Seq<Seq<char>> {
    seq![
        T::CC@,
        T::CXX@,
        T::EXECUTABLE_LINKER@,
        T::STATIC_LIB_LINKER@,
        T::SHARED_LIB_LINKER@,
        T::OBJECT_LIB_LINKER@,
    ]
}

/// Lists the executables of `T` whose presence in `PATH` the build needs;
/// the caller looks each of them up.
pub fn check_toolchain_availability<T: ToolChainTrait>() -> (r: Vec<String>)
    ensures
        r@.map_values(|s: String| s@) == required_executables::<T>(),
{
    let mut r: Vec<String> = Vec::new();
    r.push(T::CC.to_string());
    r.push(T::CXX.to_string());
    r.push(T::EXECUTABLE_LINKER.to_string());
    r.push(T::STATIC_LIB_LINKER.to_string());
    r.push(T::SHARED_LIB_LINKER.to_string());
    r.push(T::OBJECT_LIB_LINKER.to_string());
    assert(r@.map_values(|s: String| s@) =~= required_executables::<T>());
    r
}

} // verus!
