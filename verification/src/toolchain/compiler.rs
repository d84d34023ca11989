//! Compile stage.
//!
//! Decides the compiler command that turns one source file into an object
//! in the build directory, and the compile database entry that records it;
//! running the compiler is left to the caller.

use vstd::prelude::*;

use crate::compile_commands_json::{CompileCommand, CompileCommandView};
use crate::cxon::{CxonConfig, clone_opt_strings, prefix_all, prefixed};
use crate::paths::{
    join_path, path_extension, path_file_stem, path_with_extension, spec_extension, spec_file_stem, spec_join,
    spec_with_extension, str_eq,
};
use crate::toolchain::linker::append_all;
use crate::toolchain::{ToolChainTrait, plain_extensions};

verus! {

/// A compiler invocation for one source file.
pub struct CompileInvocation {
    pub program: String,
    pub args: Vec<String>,
    /// The object file the compiler writes.
    pub object_path: String,
    /// The compile database entry of the invocation.
    pub entry: CompileCommand,
}

/// A source whose extension is `c` is compiled as C, any other as C++.
pub open spec fn is_c_source(source: Seq<char>) -> bool {
    spec_extension(source) == Some(seq!['c'])
}

/// The compiler program for a source.
pub open spec fn compiler_program<T: ToolChainTrait>(source: Seq<char>) -> Seq<char> {
    if is_c_source(source) {
        T::CC@
    } else {
        T::CXX@
    }
}

/// The items of an optional list, none when it is absent.
pub open spec fn items_of(items: Option<Seq<Seq<char>>>) -> Seq<Seq<char>> {
    match items {
        Some(s) => s,
        None => Seq::empty(),
    }
}

/// The object a source compiles to: its file stem in the build directory,
/// with the object extension.
pub open spec fn object_path_of<T: ToolChainTrait>(build_dir: Seq<char>, source: Seq<char>) -> Seq<char> {
    let stem = match spec_file_stem(source) {
        Some(s) => s,
        None => Seq::empty(),
    };
    spec_with_extension(spec_join(build_dir, stem), T::OBJECT_LIB_EXTENSION@)
}

/// The compiler arguments: the common flags, the C or C++ flags, the
/// defines and include directories with their prefixes, then the
/// compile-only flag, the source, the output flag and the object path.
pub open spec fn compile_args<T: ToolChainTrait>(
    source: Seq<char>,
    flags: Option<Seq<Seq<char>>>,
    language_flags: Option<Seq<Seq<char>>>,
    defines: Option<Seq<Seq<char>>>,
    include_dirs: Option<Seq<Seq<char>>>,
    object_path: Seq<char>,
) -> Seq<Seq<char>> {
    items_of(flags) + items_of(language_flags) + prefixed(T::DEFINE_FLAG_PREFIX@, defines)
        + prefixed(T::INCLUDE_FLAG_PREFIX@, include_dirs)
        + seq![T::ONLY_COMPILE_FLAG@, source, T::EXECUTABLE_OUTPUT_FLAG@, object_path]
}

/// The arguments joined with single spaces.
pub open spec fn space_joined(args: Seq<Seq<char>>) -> Seq<char>
    decreases args.len(),
{
    if args.len() == 0 {
        Seq::empty()
    } else if args.len() == 1 {
        args[0]
    } else {
        space_joined(args.drop_last()) + seq![' '] + args.last()
    }
}

/// Joins the arguments with single spaces.
fn join_with_spaces(args: &Vec<String>) -> (r: String)
    ensures
        r@ == space_joined(args.deep_view()),
{
    let ghost a = args.deep_view();
    let mut out = String::new();
    let mut i: usize = 0;
    proof {
        reveal_strlit(" ");
        assert(a.subrange(0, 0) =~= Seq::<Seq<char>>::empty());
    }
    while i < args.len()
        invariant
            a == args.deep_view(),
            i <= a.len(),
            out@ == space_joined(a.subrange(0, i as int)),
            " "@ == seq![' '],
        decreases args.len() - i,
    {
        if i > 0 {
            out.append(" ");
        }
        out.append(args[i].as_str());
        proof {
            let next = a.subrange(0, i + 1);
            assert(next.drop_last() =~= a.subrange(0, i as int));
            assert(next.last() == args@[i as int]@);
            if i == 0 {
                assert(out@ =~= space_joined(next));
            } else {
                assert(out@ =~= space_joined(next));
            }
        }
        i = i + 1;
    }
    assert(a.subrange(0, i as int) =~= a);
    out
}

/// Decides how one source file of a target is compiled with `T`.
pub fn compile_invocation<T: ToolChainTrait>(source: &str, cxon: &CxonConfig) -> (r: CompileInvocation)
    requires
        plain_extensions::<T>(),
    ensures
        r.program@ == compiler_program::<T>(source@),
        r.object_path@ == object_path_of::<T>(cxon@.build_dir, source@),
        r.args.deep_view() == compile_args::<T>(
            source@,
            cxon@.flags,
            if is_c_source(source@) { cxon@.cflags } else { cxon@.cxxflags },
            cxon@.defines,
            cxon@.include_dirs,
            object_path_of::<T>(cxon@.build_dir, source@),
        ),
        r.entry@ == (CompileCommandView {
            directory: cxon@.project_dir,
            command: compiler_program::<T>(source@) + seq![' '] + space_joined(r.args.deep_view()),
            file: source@,
        }),
{
    let is_c = match path_extension(source) {
        Some(e) => str_eq(e.as_str(), "c"),
        None => false,
    };
    proof {
        reveal_strlit("c");
        assert("c"@ =~= seq!['c']);
    }
    assert(is_c == is_c_source(source@));
    let program = if is_c { T::CC.to_string() } else { T::CXX.to_string() };
    let stem = match path_file_stem(source) {
        Some(s) => s,
        None => String::new(),
    };
    let object_path = path_with_extension(join_path(cxon.build_dir.as_str(), stem.as_str()).as_str(), T::OBJECT_LIB_EXTENSION);
    let mut args: Vec<String> = clone_opt_strings(&cxon.flags).unwrap_or(Vec::new());
    let language = if is_c { clone_opt_strings(&cxon.cflags) } else { clone_opt_strings(&cxon.cxxflags) };
    let ghost start = args.deep_view();
    append_all(&mut args, language.unwrap_or(Vec::new()));
    append_all(&mut args, prefix_all(T::DEFINE_FLAG_PREFIX, &cxon.defines));
    append_all(&mut args, prefix_all(T::INCLUDE_FLAG_PREFIX, &cxon.include_dirs));
    let mut tail: Vec<String> = Vec::new();
    tail.push(T::ONLY_COMPILE_FLAG.to_string());
    tail.push(source.to_string());
    tail.push(T::EXECUTABLE_OUTPUT_FLAG.to_string());
    tail.push(object_path.clone());
    assert(tail.deep_view() =~= seq![T::ONLY_COMPILE_FLAG@, source@, T::EXECUTABLE_OUTPUT_FLAG@, object_path@]);
    append_all(&mut args, tail);
    let mut entry = CompileCommand::from_source(source, cxon.project_dir.as_str());
    let mut command = program.clone();
    command.append(" ");
    let joined = join_with_spaces(&args);
    command.append(joined.as_str());
    proof {
        reveal_strlit(" ");
        assert(" "@ =~= seq![' ']);
    }
    entry.command = command;
    CompileInvocation { program, args, object_path, entry }
}

} // verus!
