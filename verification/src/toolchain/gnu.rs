//! The GNU toolchain: GCC with the binutils archiver and linker.

use vstd::prelude::*;

use crate::toolchain::ToolChainTrait;

verus! {

/// The GNU toolchain: GCC with the binutils archiver and linker.
pub struct GNU;

impl ToolChainTrait for GNU {
    const CC: &'static str = "gcc";
    const CXX: &'static str = "g++";
    const DEBUG_FLAG: &'static str = "-g";
    const EXECUTABLE_LINKER: &'static str = "g++";
    const STATIC_LIB_LINKER: &'static str = "ar";
    const SHARED_LIB_LINKER: &'static str = "g++";
    const OBJECT_LIB_LINKER: &'static str = "ld";
    const EXECUTABLE_OUTPUT_FLAG: &'static str = "-o";
    const STATIC_LIB_OUTPUT_FLAG: &'static str = "rcs";
    const SHARED_LIB_OUTPUT_FLAG: &'static str = "-shared -o";
    const OBJECT_LIB_OUTPUT_FLAG: &'static str = "-r -o";
    const EXECUTABLE_EXTENSION: &'static str = "";
    const STATIC_LIB_EXTENSION: &'static str = "a";
    const SHARED_LIB_EXTENSION: &'static str = "so";
    const OBJECT_LIB_EXTENSION: &'static str = "o";
    const ONLY_COMPILE_FLAG: &'static str = "-c";
    const DEFINE_FLAG_PREFIX: &'static str = "-D";
    const INCLUDE_FLAG_PREFIX: &'static str = "-I";
    const LINK_DIR_FLAG_PREFIX: &'static str = "-L";
    const LINK_LIB_FLAG_PREFIX: &'static str = "-l";
}

} // verus!
