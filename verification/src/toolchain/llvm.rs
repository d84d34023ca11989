//! The LLVM toolchain: Clang with the LLVM archiver and linker.

use vstd::prelude::*;

use crate::toolchain::ToolChainTrait;

verus! {

/// The LLVM toolchain: Clang with the LLVM archiver and linker.
pub struct LLVM;

impl ToolChainTrait for LLVM {
    const CC: &'static str = "clang";
    const CXX: &'static str = "clang++";
    const DEBUG_FLAG: &'static str = "-g";
    const EXECUTABLE_LINKER: &'static str = "clang++";
    const STATIC_LIB_LINKER: &'static str = "llvm-ar";
    const SHARED_LIB_LINKER: &'static str = "clang++";
    const OBJECT_LIB_LINKER: &'static str = "ld.lld";
    const EXECUTABLE_OUTPUT_FLAG: &'static str = "-o";
    const STATIC_LIB_OUTPUT_FLAG: &'static str = "rcs";
    const SHARED_LIB_OUTPUT_FLAG: &'static str = "-shared -o";
    const OBJECT_LIB_OUTPUT_FLAG: &'static str = "-r -o";
    const EXECUTABLE_EXTENSION: &'static str = "";
    const STATIC_LIB_EXTENSION: &'static str = "a";
    const SHARED_LIB_EXTENSION: &'static str = "so";
    const OBJECT_LIB_EXTENSION: &'static str = "o";
    const ONLY_COMPILE_FLAG: &'static str = "-c";
    const DEFINE_FLAG_PREFIX: &'static str = "-D";
    const INCLUDE_FLAG_PREFIX: &'static str = "-I";
    const LINK_DIR_FLAG_PREFIX: &'static str = "-L";
    const LINK_LIB_FLAG_PREFIX: &'static str = "-l";
}

} // verus!
