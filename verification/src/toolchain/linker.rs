//! Link stage.
//!
//! Decides the linker command that turns the compiled objects into the
//! configured target artifact; running it is left to the caller.

use vstd::prelude::*;

use crate::cxon::{CxonConfig, prefixed};
use crate::object::output::{ObjectCollection, arg_paths};
use crate::paths::{
    has_separator, join_path, path_with_added_extension, path_with_extension, spec_join, spec_with_added_extension,
    spec_with_extension,
};
use crate::toolchain::{TargetType, ToolChainTrait, plain_extensions};

verus! {

/// A linker invocation.
pub struct LinkCommand {
    pub program: String,
    pub args: Vec<String>,
    /// The output path before its extension is settled; used in messages.
    pub output_path: String,
    pub target_type: TargetType,
}

struct LinkArgs {
    pub linker: String,
    pub output_path: String,
    pub output_flag: String,
    pub other_flags: Vec<String>,
    /// Dependency artifact files passed directly to the linker.
    pub extra_link_files: Vec<String>,
    pub link_dir_args: Vec<String>,
    pub link_lib_args: Vec<String>,
    /// Whether object paths are normalized as on Windows.
    pub windows: bool,
}

/// The pieces of `s` between single spaces, as `str::split(' ')` gives them:
/// an empty string gives one empty piece, and two adjacent spaces an empty
/// piece between them.
pub open spec fn space_split(s: Seq<char>) -> Seq<Seq<char>>
    decreases s.len(),
{
    if s.len() == 0 {
        seq![Seq::empty()]
    } else {
        let r = space_split(s.drop_last());
        if s.last() == ' ' {
            r.push(Seq::empty())
        } else {
            r.update(r.len() - 1, r.last().push(s.last()))
        }
    }
}

proof fn lemma_space_split_nonempty(s: Seq<char>)
    ensures
        space_split(s).len() >= 1,
    decreases s.len(),
{
    if s.len() > 0 {
        lemma_space_split_nonempty(s.drop_last());
    }
}

/// Splits `s` at every space.
pub fn split_on_space(s: &str) -> (r: Vec<String>)
    ensures
        r.deep_view() == space_split(s@),
{
    let n = s.unicode_len();
    let mut parts: Vec<String> = Vec::new();
    let mut start: usize = 0;
    let mut i: usize = 0;
    proof {
        assert(s@.subrange(0, 0) =~= Seq::<char>::empty());
    }
    while i < n
        invariant
            n == s@.len(),
            start <= i <= n,
            space_split(s@.subrange(0, i as int)) == parts.deep_view().push(s@.subrange(start as int, i as int)),
        decreases n - i,
    {
        let ghost prefix = s@.subrange(0, i as int);
        let ghost next = s@.subrange(0, i + 1);
        proof {
            assert(next.drop_last() =~= prefix);
            assert(next.last() == s@[i as int]);
            lemma_space_split_nonempty(prefix);
        }
        if s.get_char(i) == ' ' {
            let piece = s.substring_char(start, i);
            let ghost before = parts.deep_view();
            parts.push(piece.to_string());
            proof {
                assert(parts.deep_view() =~= before.push(s@.subrange(start as int, i as int)));
                assert(s@.subrange(i + 1, i + 1) =~= Seq::<char>::empty());
            }
            start = i + 1;
        } else {
            proof {
                assert(s@.subrange(start as int, i + 1) =~= s@.subrange(start as int, i as int).push(s@[i as int]));
                let r = space_split(prefix);
                assert(r.last() == s@.subrange(start as int, i as int));
                assert(space_split(next) =~= parts.deep_view().push(s@.subrange(start as int, i + 1)));
            }
        }
        i = i + 1;
    }
    let last = s.substring_char(start, n);
    let ghost before = parts.deep_view();
    parts.push(last.to_string());
    proof {
        assert(s@.subrange(0, n as int) =~= s@);
        assert(parts.deep_view() =~= before.push(s@.subrange(start as int, n as int)));
    }
    parts
}

pub(crate) fn append_all(args: &mut Vec<String>, items: Vec<String>)
    ensures
        final(args).deep_view() == old(args).deep_view() + items.deep_view(),
{
    let mut i: usize = 0;
    let ghost start = args.deep_view();
    while i < items.len()
        invariant
            i <= items@.len(),
            args.deep_view() == start + items.deep_view().subrange(0, i as int),
        decreases items.len() - i,
    {
        let ghost before = args.deep_view();
        args.push(items[i].clone());
        proof {
            assert(args.deep_view() =~= before.push(items@[i as int]@));
            assert(items.deep_view().subrange(0, i + 1) =~= items.deep_view().subrange(0, i as int).push(items@[i as int]@));
        }
        i = i + 1;
    }
    assert(items.deep_view().subrange(0, i as int) =~= items.deep_view());
}

/// The program of the linker command for a target kind.
pub open spec fn linker_program<T: ToolChainTrait>(target_type: TargetType) -> Seq<char> {
    match target_type {
        TargetType::Executable => T::EXECUTABLE_LINKER@,
        TargetType::StaticLib => T::STATIC_LIB_LINKER@,
        TargetType::SharedLib => T::SHARED_LIB_LINKER@,
        TargetType::ObjectLib => T::OBJECT_LIB_LINKER@,
    }
}

/// The arguments of the linker command: for an executable, the objects,
/// the output flag and the output path with the executable extension added;
/// for a static or shared library, the pieces of the output flag, the output
/// path with the library extension, the dependency artifacts, then the
/// objects; for an object library, the objects, the pieces of the output
/// flag, the output path with the object extension and the dependency
/// artifacts. Link directories and libraries come last.
pub open spec fn linker_args<T: ToolChainTrait>(
    objects: Seq<Seq<char>>,
    target_type: TargetType,
    output_path: Seq<char>,
    extra: Seq<Seq<char>>,
    dirs: Seq<Seq<char>>,
    libs: Seq<Seq<char>>,
) -> Seq<Seq<char>> {
    match target_type {
        TargetType::Executable => objects + seq![T::EXECUTABLE_OUTPUT_FLAG@]
            + seq![spec_with_added_extension(output_path, T::EXECUTABLE_EXTENSION@)] + extra + dirs + libs,
        TargetType::StaticLib => space_split(T::STATIC_LIB_OUTPUT_FLAG@)
            + seq![spec_with_extension(output_path, T::STATIC_LIB_EXTENSION@)] + extra + objects + dirs + libs,
        TargetType::SharedLib => space_split(T::SHARED_LIB_OUTPUT_FLAG@)
            + seq![spec_with_extension(output_path, T::SHARED_LIB_EXTENSION@)] + extra + objects + dirs + libs,
        TargetType::ObjectLib => objects + space_split(T::OBJECT_LIB_OUTPUT_FLAG@)
            + seq![spec_with_extension(output_path, T::OBJECT_LIB_EXTENSION@)] + extra + dirs + libs,
    }
}

fn single(s: String) -> (r: Vec<String>)
    ensures
        r.deep_view() == seq![s@],
{
    let mut r: Vec<String> = Vec::new();
    r.push(s);
    assert(r.deep_view() =~= seq![s@]);
    r
}

/// Links objects into an executable target.
fn link_to_executable_cmd<T: ToolChainTrait>(input: &ObjectCollection, args: LinkArgs) -> (r: LinkCommand)
    requires
        plain_extensions::<T>(),
    ensures
        r.program@ == args.linker@,
        r.output_path@ == args.output_path@,
        r.target_type == TargetType::Executable,
        r.args.deep_view() == arg_paths(input.objects@, args.windows) + seq![args.output_flag@]
            + seq![spec_with_added_extension(args.output_path@, T::EXECUTABLE_EXTENSION@)]
            + args.extra_link_files.deep_view() + args.link_dir_args.deep_view()
            + args.link_lib_args.deep_view() + args.other_flags.deep_view(),
{
    let mut cmd: Vec<String> = input.to_args(args.windows);
    append_all(&mut cmd, single(args.output_flag));
    append_all(&mut cmd, single(path_with_added_extension(args.output_path.as_str(), T::EXECUTABLE_EXTENSION)));
    append_all(&mut cmd, args.extra_link_files);
    append_all(&mut cmd, args.link_dir_args);
    append_all(&mut cmd, args.link_lib_args);
    append_all(&mut cmd, args.other_flags);
    LinkCommand { program: args.linker, args: cmd, output_path: args.output_path, target_type: TargetType::Executable }
}

/// Archives or links objects into a library target whose output flag is
/// split at spaces and whose output path gets `extension`.
fn link_to_library_cmd(input: &ObjectCollection, args: LinkArgs, extension: &str, target_type: TargetType) -> (r: LinkCommand)
    requires
        !has_separator(extension@),
    ensures
        r.program@ == args.linker@,
        r.output_path@ == args.output_path@,
        r.target_type == target_type,
        r.args.deep_view() == space_split(args.output_flag@)
            + seq![spec_with_extension(args.output_path@, extension@)]
            + args.extra_link_files.deep_view() + arg_paths(input.objects@, args.windows) + args.link_dir_args.deep_view()
            + args.link_lib_args.deep_view() + args.other_flags.deep_view(),
{
    let mut cmd: Vec<String> = split_on_space(args.output_flag.as_str());
    append_all(&mut cmd, single(path_with_extension(args.output_path.as_str(), extension)));
    append_all(&mut cmd, args.extra_link_files);
    append_all(&mut cmd, input.to_args(args.windows));
    append_all(&mut cmd, args.link_dir_args);
    append_all(&mut cmd, args.link_lib_args);
    append_all(&mut cmd, args.other_flags);
    LinkCommand { program: args.linker, args: cmd, output_path: args.output_path, target_type }
}

/// Links objects into a static library target.
fn link_to_static_lib_cmd<T: ToolChainTrait>(input: &ObjectCollection, args: LinkArgs) -> (r: LinkCommand)
    requires
        plain_extensions::<T>(),
    ensures
        r.program@ == args.linker@,
        r.output_path@ == args.output_path@,
        r.target_type == TargetType::StaticLib,
        r.args.deep_view() == space_split(args.output_flag@)
            + seq![spec_with_extension(args.output_path@, T::STATIC_LIB_EXTENSION@)]
            + args.extra_link_files.deep_view() + arg_paths(input.objects@, args.windows) + args.link_dir_args.deep_view()
            + args.link_lib_args.deep_view() + args.other_flags.deep_view(),
{
    link_to_library_cmd(input, args, T::STATIC_LIB_EXTENSION, TargetType::StaticLib)
}

/// Links objects into a shared library target.
fn link_to_shared_lib_cmd<T: ToolChainTrait>(input: &ObjectCollection, args: LinkArgs) -> (r: LinkCommand)
    requires
        plain_extensions::<T>(),
    ensures
        r.program@ == args.linker@,
        r.output_path@ == args.output_path@,
        r.target_type == TargetType::SharedLib,
        r.args.deep_view() == space_split(args.output_flag@)
            + seq![spec_with_extension(args.output_path@, T::SHARED_LIB_EXTENSION@)]
            + args.extra_link_files.deep_view() + arg_paths(input.objects@, args.windows) + args.link_dir_args.deep_view()
            + args.link_lib_args.deep_view() + args.other_flags.deep_view(),
{
    link_to_library_cmd(input, args, T::SHARED_LIB_EXTENSION, TargetType::SharedLib)
}

/// Links objects into an object-library-like output target.
fn link_to_object_cmd<T: ToolChainTrait>(input: &ObjectCollection, args: LinkArgs) -> (r: LinkCommand)
    requires
        plain_extensions::<T>(),
    ensures
        r.program@ == args.linker@,
        r.output_path@ == args.output_path@,
        r.target_type == TargetType::ObjectLib,
        r.args.deep_view() == arg_paths(input.objects@, args.windows) + space_split(args.output_flag@)
            + seq![spec_with_extension(args.output_path@, T::OBJECT_LIB_EXTENSION@)]
            + args.extra_link_files.deep_view() + args.link_dir_args.deep_view()
            + args.link_lib_args.deep_view() + args.other_flags.deep_view(),
{
    let mut cmd: Vec<String> = input.to_args(args.windows);
    append_all(&mut cmd, split_on_space(args.output_flag.as_str()));
    append_all(&mut cmd, single(path_with_extension(args.output_path.as_str(), T::OBJECT_LIB_EXTENSION)));
    append_all(&mut cmd, args.extra_link_files);
    append_all(&mut cmd, args.link_dir_args);
    append_all(&mut cmd, args.link_lib_args);
    append_all(&mut cmd, args.other_flags);
    LinkCommand { program: args.linker, args: cmd, output_path: args.output_path, target_type: TargetType::ObjectLib }
}

/// The output flag of the linker command for a target kind.
pub open spec fn output_flag<T: ToolChainTrait>(target_type: TargetType) -> Seq<char> {
    match target_type {
        TargetType::Executable => T::EXECUTABLE_OUTPUT_FLAG@,
        TargetType::StaticLib => T::STATIC_LIB_OUTPUT_FLAG@,
        TargetType::SharedLib => T::SHARED_LIB_OUTPUT_FLAG@,
        TargetType::ObjectLib => T::OBJECT_LIB_OUTPUT_FLAG@,
    }
}

/// Decides the command that links all compiled objects into the output of
/// kind `target_type`, under the configured output directory and target
/// name; `windows` tells whether object paths are normalized as on Windows.
pub fn link<T: ToolChainTrait>(
    input: ObjectCollection,
    target_type: TargetType,
    cxon: &CxonConfig,
    windows: bool,
) -> (r: LinkCommand)
    requires
        plain_extensions::<T>(),
    ensures
        r.program@ == linker_program::<T>(target_type),
        r.target_type == target_type,
        r.output_path@ == spec_join(cxon@.output_dir, cxon@.target_name),
        r.args.deep_view() == linker_args::<T>(
            arg_paths(input.objects@, windows),
            target_type,
            spec_join(cxon@.output_dir, cxon@.target_name),
            cxon@.extra_link_files,
            prefixed(T::LINK_DIR_FLAG_PREFIX@, cxon@.link),
            prefixed(T::LINK_LIB_FLAG_PREFIX@, cxon@.libs),
        ),
{
    let target_name = cxon.get_target_name();
    let output_path = join_path(cxon.output_dir.as_str(), target_name.as_str());
    let other_flags: Vec<String> = Vec::new();
    assert(other_flags.deep_view() =~= Seq::<Seq<char>>::empty());
    let args = LinkArgs {
        linker: match target_type {
            TargetType::Executable => T::EXECUTABLE_LINKER.to_string(),
            TargetType::StaticLib => T::STATIC_LIB_LINKER.to_string(),
            TargetType::SharedLib => T::SHARED_LIB_LINKER.to_string(),
            TargetType::ObjectLib => T::OBJECT_LIB_LINKER.to_string(),
        },
        output_path,
        output_flag: match target_type {
            TargetType::Executable => T::EXECUTABLE_OUTPUT_FLAG.to_string(),
            TargetType::StaticLib => T::STATIC_LIB_OUTPUT_FLAG.to_string(),
            TargetType::SharedLib => T::SHARED_LIB_OUTPUT_FLAG.to_string(),
            TargetType::ObjectLib => T::OBJECT_LIB_OUTPUT_FLAG.to_string(),
        },
        extra_link_files: cxon.get_extra_link_file_args(),
        link_dir_args: cxon.get_link_dir_args::<T>(),
        link_lib_args: cxon.get_lib_args::<T>(),
        other_flags,
        windows,
    };
    let r = match target_type {
        TargetType::Executable => link_to_executable_cmd::<T>(&input, args),
        TargetType::StaticLib => link_to_static_lib_cmd::<T>(&input, args),
        TargetType::SharedLib => link_to_shared_lib_cmd::<T>(&input, args),
        TargetType::ObjectLib => link_to_object_cmd::<T>(&input, args),
    };
    proof {
        assert(r.args.deep_view() =~= linker_args::<T>(
            arg_paths(input.objects@, windows),
            target_type,
            spec_join(cxon@.output_dir, cxon@.target_name),
            cxon@.extra_link_files,
            prefixed(T::LINK_DIR_FLAG_PREFIX@, cxon@.link),
            prefixed(T::LINK_LIB_FLAG_PREFIX@, cxon@.libs),
        ));
    }
    r
}


/// Each target kind is linked by its own linker, with its own output flag:
/// executables by the executable linker, static libraries by the archiver,
/// shared libraries by the shared-library linker and object libraries by
/// the object linker, for every toolchain.
pub proof fn lemma_each_kind_uses_its_linker<T: ToolChainTrait>()
    ensures
        linker_program::<T>(TargetType::Executable) == T::EXECUTABLE_LINKER@,
        linker_program::<T>(TargetType::StaticLib) == T::STATIC_LIB_LINKER@,
        linker_program::<T>(TargetType::SharedLib) == T::SHARED_LIB_LINKER@,
        linker_program::<T>(TargetType::ObjectLib) == T::OBJECT_LIB_LINKER@,
        output_flag::<T>(TargetType::Executable) == T::EXECUTABLE_OUTPUT_FLAG@,
        output_flag::<T>(TargetType::StaticLib) == T::STATIC_LIB_OUTPUT_FLAG@,
        output_flag::<T>(TargetType::SharedLib) == T::SHARED_LIB_OUTPUT_FLAG@,
        output_flag::<T>(TargetType::ObjectLib) == T::OBJECT_LIB_OUTPUT_FLAG@,
{
}

/// Libraries and executables are not handed to the archiver: unless the
/// toolchain's shared-library or executable linker is the archiver itself,
/// a shared library or an executable is linked by another program than a
/// static library.
pub proof fn lemma_shared_linker_is_not_the_archiver<T: ToolChainTrait>()
    ensures
        T::SHARED_LIB_LINKER@ != T::STATIC_LIB_LINKER@ ==> linker_program::<T>(TargetType::SharedLib)
            != linker_program::<T>(TargetType::StaticLib),
        T::EXECUTABLE_LINKER@ != T::STATIC_LIB_LINKER@ ==> linker_program::<T>(TargetType::Executable)
            != linker_program::<T>(TargetType::StaticLib),
{
}

} // verus!
