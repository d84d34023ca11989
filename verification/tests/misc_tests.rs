use cxon::build_plan::{module_relative_segment, relative_segment_from};
use cxon::cli::arg::{project_dir_from_argument, project_dir_from_parts};
use cxon::compile_commands_json::{compile_commands_location, compile_commands_path, CompileCommand};
use cxon::cxon::{toolchain_from_lowercase, CxonConfig, ModuleRef};
use cxon::toolchain::ToolChain;
use cxon::error::{ArgError, BuildError};
use cxon::paths::{contains_parent_component, str_eq};
use cxon::toolchain::TargetType;
use cxon::utils::normalize_path;

#[test]
fn parent_components() {
    assert!(contains_parent_component(".."));
    assert!(contains_parent_component("../x"));
    assert!(contains_parent_component("x/../y"));
    assert!(contains_parent_component("x/.."));
    assert!(!contains_parent_component("x/..y"));
    assert!(!contains_parent_component("...")); 
    assert!(!contains_parent_component("a/b"));
    assert!(!contains_parent_component(""));
}

#[test]
fn string_equality() {
    assert!(str_eq("abc", "abc"));
    assert!(!str_eq("abc", "abd"));
    assert!(!str_eq("ab", "abc"));
}

#[test]
fn relative_segments() {
    assert_eq!(module_relative_segment("/p", "/p/libs/net").unwrap(), "libs/net");
    assert_eq!(module_relative_segment("/p/app", "/p/shared").unwrap(), "shared");
    assert_eq!(module_relative_segment("/p", "/p").unwrap(), "p");
    assert_eq!(module_relative_segment("/p", "rel/dir").unwrap(), "dir");
    match module_relative_segment("/p/app", "/") {
        Err(BuildError::ModuleFolderName(d)) => assert_eq!(d, "/"),
        _ => panic!("expected an error"),
    }
}

fn base_config() -> CxonConfig {
    CxonConfig {
        project: "p".to_string(),
        target_name: "app".to_string(),
        target_type: TargetType::Executable,
        toolchain: "gnu".to_string(),
        threads: Some(2),
        project_dir: "/p".to_string(),
        build_dir: "/p/build".to_string(),
        output_dir: "/p/out".to_string(),
        flags: None,
        cflags: None,
        cxxflags: None,
        defines: None,
        include_dirs: None,
        sources: Some(vec!["main.c".to_string()]),
        link: None,
        libs: None,
        modules: Some(vec![ModuleRef { path: "lib".to_string() }]),
        export_compile_commands: true,
        export_compile_commands_path: None,
        extra_link_files: Vec::new(),
    }
}

#[test]
fn compile_commands_path_choices() {
    let mut c = base_config();
    assert_eq!(compile_commands_path(&c), "/p/build/compile_commands.json");
    c.export_compile_commands_path = Some("/p/tools".to_string());
    assert_eq!(compile_commands_path(&c), "/p/tools/compile_commands.json");
    c.export_compile_commands_path = Some("/p/tools/compile_commands.json".to_string());
    assert_eq!(compile_commands_path(&c), "/p/tools/compile_commands.json");
    c.export_compile_commands_path = Some("/p/xcompile_commands.json".to_string());
    assert_eq!(compile_commands_path(&c), "/p/xcompile_commands.json/compile_commands.json");
}

#[test]
fn compile_command_entries() {
    let d = CompileCommand::default("/p");
    assert_eq!(d.directory, "/p");
    assert_eq!(d.command, "");
    assert_eq!(d.file, "");
    let s = CompileCommand::from_source("/p/src/main.c", "/p");
    assert_eq!(s.directory, "/p");
    assert_eq!(s.file, "/p/src/main.c");
    assert_eq!(s.command, "");
}

#[test]
fn project_directory_from_argument() {
    assert_eq!(project_dir_from_argument("/p/cxon.json", true).unwrap(), "/p");
    assert_eq!(project_dir_from_argument("/p/other.json", true).unwrap(), "/p/other.json");
    assert_eq!(project_dir_from_argument("/p", false).unwrap(), "/p");
    // A bare `cxon.json` names the current directory.
    assert_eq!(project_dir_from_argument("cxon.json", true).unwrap(), ".");
    assert!(matches!(project_dir_from_argument("/", true), Err(ArgError::MissingFileName)));
}

#[test]
fn config_clone_and_link_inputs() {
    let mut c = base_config();
    c.add_extra_link_file("/x/libq.a".to_string());
    let d = c.clone();
    assert_eq!(d.extra_link_files, vec!["/x/libq.a"]);
    assert_eq!(d.modules.as_ref().unwrap()[0].path(), "lib");
    assert_eq!(d.get_extra_link_file_args(), vec!["/x/libq.a"]);
    c.clear_extra_link_files();
    assert!(c.extra_link_files.is_empty());
    assert_eq!(d.get_target_name(), "app");
    assert_eq!(d.get_target_type(), TargetType::Executable);
}

#[test]
fn normalizing_keeps_unix_paths() {
    assert_eq!(normalize_path("/a/b".to_string(), false), "/a/b");
    assert_eq!(normalize_path("\\\\?\\C:\\a".to_string(), false), "\\\\?\\C:\\a");
    assert_eq!(normalize_path("\\\\?\\C:\\a".to_string(), true), "C:\\a");
    assert_eq!(normalize_path("\\\\?\\\\\\?\\C:\\a".to_string(), true), "C:\\a");
    assert_eq!(normalize_path("C:\\a".to_string(), true), "C:\\a");
    assert_eq!(normalize_path("\\\\?".to_string(), true), "\\\\?");
}

#[test]
fn segment_from_computed_parts() {
    let dir = "/m";
    assert_eq!(relative_segment_from(Some("a/b".to_string()), Some("b".to_string()), dir).unwrap(), "a/b");
    assert_eq!(relative_segment_from(Some("../b".to_string()), Some("b".to_string()), dir).unwrap(), "b");
    assert_eq!(relative_segment_from(Some(String::new()), Some("m".to_string()), dir).unwrap(), "m");
    assert_eq!(relative_segment_from(None, Some("m".to_string()), dir).unwrap(), "m");
    match relative_segment_from(Some("..".to_string()), None, dir) {
        Err(BuildError::ModuleFolderName(d)) => assert_eq!(d, "/m"),
        _ => panic!("expected an error"),
    }
}

#[test]
fn location_from_computed_parts() {
    assert_eq!(compile_commands_location(&None, false, "/b"), "/b/compile_commands.json");
    assert_eq!(compile_commands_location(&Some("/t".to_string()), false, "/b"), "/t/compile_commands.json");
    assert_eq!(compile_commands_location(&Some("/t/cc.json".to_string()), true, "/b"), "/t/cc.json");
}

#[test]
fn toolchain_names() {
    let name = "GNU".to_string();
    assert_eq!(toolchain_from_lowercase("gnu", &name).unwrap(), ToolChain::GNU());
    assert_eq!(toolchain_from_lowercase("llvm", &name).unwrap(), ToolChain::LLVM());
    assert_eq!(toolchain_from_lowercase("msvc", &name).unwrap(), ToolChain::MSVC());
    match toolchain_from_lowercase("icc", &name) {
        Err(BuildError::UnknownToolchain(n)) => assert_eq!(n, "GNU"),
        _ => panic!("expected an error"),
    }
    let mut c = base_config();
    c.toolchain = "LLVM".to_string();
    assert_eq!(c.get_toolchain().unwrap(), ToolChain::LLVM());
    c.toolchain = "Msvc".to_string();
    assert_eq!(c.get_toolchain().unwrap(), ToolChain::MSVC());
    c.toolchain = "tcc".to_string();
    assert!(matches!(c.get_toolchain(), Err(BuildError::UnknownToolchain(_))));
}

#[test]
fn project_directory_from_parts() {
    assert_eq!(project_dir_from_parts("/p/cxon.json", true, Some("cxon.json".to_string()), Some("/p".to_string())).unwrap(), "/p");
    assert_eq!(project_dir_from_parts("/p/a.json", true, Some("a.json".to_string()), Some("/p".to_string())).unwrap(), "/p/a.json");
    assert_eq!(project_dir_from_parts("/p", false, None, None).unwrap(), "/p");
    assert_eq!(project_dir_from_parts("cxon.json", true, Some("cxon.json".to_string()), Some(String::new())).unwrap(), ".");
    assert!(matches!(project_dir_from_parts("/", true, None, None), Err(ArgError::MissingFileName)));
    assert!(matches!(
        project_dir_from_parts("cxon.json", true, Some("cxon.json".to_string()), None),
        Err(ArgError::MissingParent)
    ));
}
