use cxon::toolchain::compiler::compile_invocation;
use cxon::toolchain::{gnu::GNU, llvm::LLVM, msvc::MSVC};
use cxon::build_executor::{
    build_target, compile_thread_count, execute_build_plan, get_target_output_path, inject_dependency_artifacts,
    plan_with_toolchain, thread_count_for, Artifact,
};
use cxon::build_plan::{BuildPlan, TargetPlan};
use cxon::cxon::CxonConfig;
use cxon::error::BuildError;
use cxon::object::output::{Object, ObjectCollection};
use cxon::project_graph::ModuleGraph;
use cxon::toolchain::linker::{link, split_on_space};
use cxon::toolchain::{check_toolchain_availability, has_plain_extensions, TargetType, ToolChain, ToolChainTrait};

struct Unixy;

impl ToolChainTrait for Unixy {
    const CC: &'static str = "cc";
    const CXX: &'static str = "c++";
    const DEBUG_FLAG: &'static str = "-g";
    const EXECUTABLE_LINKER: &'static str = "c++";
    const STATIC_LIB_LINKER: &'static str = "ar";
    const SHARED_LIB_LINKER: &'static str = "c++";
    const OBJECT_LIB_LINKER: &'static str = "ld";
    const EXECUTABLE_OUTPUT_FLAG: &'static str = "-o";
    const STATIC_LIB_OUTPUT_FLAG: &'static str = "rcs";
    const SHARED_LIB_OUTPUT_FLAG: &'static str = "-shared -o";
    const OBJECT_LIB_OUTPUT_FLAG: &'static str = "-r -o";
    const EXECUTABLE_EXTENSION: &'static str = "";
    const STATIC_LIB_EXTENSION: &'static str = "a";
    const SHARED_LIB_EXTENSION: &'static str = "so";
    const OBJECT_LIB_EXTENSION: &'static str = "o";
    const ONLY_COMPILE_FLAG: &'static str = "-c";
    const DEFINE_FLAG_PREFIX: &'static str = "-D";
    const INCLUDE_FLAG_PREFIX: &'static str = "-I";
    const LINK_DIR_FLAG_PREFIX: &'static str = "-L";
    const LINK_LIB_FLAG_PREFIX: &'static str = "-l";
}

struct Windowsy;

impl ToolChainTrait for Windowsy {
    const CC: &'static str = "cl";
    const CXX: &'static str = "cl";
    const DEBUG_FLAG: &'static str = "/Zi";
    const EXECUTABLE_LINKER: &'static str = "link";
    const STATIC_LIB_LINKER: &'static str = "lib";
    const SHARED_LIB_LINKER: &'static str = "link";
    const OBJECT_LIB_LINKER: &'static str = "lib";
    const EXECUTABLE_OUTPUT_FLAG: &'static str = "/OUT:";
    const STATIC_LIB_OUTPUT_FLAG: &'static str = "/OUT:";
    const SHARED_LIB_OUTPUT_FLAG: &'static str = "/DLL /OUT:";
    const OBJECT_LIB_OUTPUT_FLAG: &'static str = "/OUT:";
    const EXECUTABLE_EXTENSION: &'static str = "exe";
    const STATIC_LIB_EXTENSION: &'static str = "lib";
    const SHARED_LIB_EXTENSION: &'static str = "dll";
    const OBJECT_LIB_EXTENSION: &'static str = "obj";
    const ONLY_COMPILE_FLAG: &'static str = "/c";
    const DEFINE_FLAG_PREFIX: &'static str = "/D";
    const INCLUDE_FLAG_PREFIX: &'static str = "/I";
    const LINK_DIR_FLAG_PREFIX: &'static str = "/LIBPATH:";
    const LINK_LIB_FLAG_PREFIX: &'static str = "";
}

fn config(dir: &str, name: &str, kind: TargetType, toolchain: &str) -> CxonConfig {
    CxonConfig {
        project: name.to_string(),
        target_name: name.to_string(),
        target_type: kind,
        toolchain: toolchain.to_string(),
        threads: None,
        project_dir: dir.to_string(),
        build_dir: format!("{}/build", dir),
        output_dir: format!("{}/out", dir),
        flags: None,
        cflags: None,
        cxxflags: None,
        defines: None,
        include_dirs: None,
        sources: None,
        link: Some(vec!["/usr/lib".to_string()]),
        libs: Some(vec!["m".to_string(), "z".to_string()]),
        modules: None,
        export_compile_commands: false,
        export_compile_commands_path: None,
        extra_link_files: vec!["stale.a".to_string()],
    }
}

fn artifact(out: &str, kind: TargetType) -> Artifact {
    Artifact { module_id: "/m".to_string(), output: out.to_string(), target_type: kind }
}

#[test]
fn injection_replaces_link_inputs_and_skips_executables() {
    let mut c = config("/p", "app", TargetType::Executable, "gnu");
    let deps = vec![
        artifact("/o/libnet.so", TargetType::SharedLib),
        artifact("/o/tool", TargetType::Executable),
        artifact("/o/libz.a", TargetType::StaticLib),
        artifact("/o/parts.o", TargetType::ObjectLib),
    ];
    inject_dependency_artifacts(&mut c, &deps);
    assert_eq!(c.extra_link_files, vec!["/o/libnet.so", "/o/libz.a", "/o/parts.o"]);
    // Injecting the same artifacts again changes nothing.
    inject_dependency_artifacts(&mut c, &deps);
    assert_eq!(c.extra_link_files, vec!["/o/libnet.so", "/o/libz.a", "/o/parts.o"]);
    inject_dependency_artifacts(&mut c, &[]);
    assert!(c.extra_link_files.is_empty());
    assert_eq!(c.target_name, "app");
}

#[test]
fn output_paths_follow_the_toolchain() {
    let c = config("/p", "app", TargetType::Executable, "gnu");
    assert_eq!(get_target_output_path::<Unixy>(&c, TargetType::Executable), "/p/out/app");
    assert_eq!(get_target_output_path::<Unixy>(&c, TargetType::StaticLib), "/p/out/app.a");
    assert_eq!(get_target_output_path::<Unixy>(&c, TargetType::SharedLib), "/p/out/app.so");
    assert_eq!(get_target_output_path::<Unixy>(&c, TargetType::ObjectLib), "/p/out/app.o");
    assert_eq!(get_target_output_path::<Windowsy>(&c, TargetType::Executable), "/p/out/app.exe");
    let dotted = config("/p", "app.v2", TargetType::SharedLib, "gnu");
    assert_eq!(get_target_output_path::<Unixy>(&dotted, TargetType::SharedLib), "/p/out/app.so");
    assert_eq!(get_target_output_path::<Windowsy>(&dotted, TargetType::Executable), "/p/out/app.v2.exe");
    assert_eq!(get_target_output_path::<Unixy>(&dotted, TargetType::Executable), "/p/out/app.v2");
}

#[test]
fn thread_count_defaults_to_spare_cpus() {
    assert_eq!(thread_count_for(Some(3), 16), 3);
    assert_eq!(thread_count_for(Some(0), 16), 0);
    assert_eq!(thread_count_for(None, 16), 15);
    assert_eq!(thread_count_for(None, 2), 1);
    assert_eq!(thread_count_for(None, 1), 1);
    assert_eq!(compile_thread_count(Some(5)), 5);
    assert!(compile_thread_count(None) >= 1);
}

#[test]
fn toolchain_executables_are_listed() {
    assert_eq!(check_toolchain_availability::<Unixy>(), vec!["cc", "c++", "c++", "ar", "c++", "ld"]);
}

#[test]
fn toolchain_names_are_case_insensitive() {
    assert!(matches!(config("/p", "a", TargetType::Executable, "GNU").get_toolchain(), Ok(ToolChain::GNU())));
    assert!(matches!(config("/p", "a", TargetType::Executable, "Llvm").get_toolchain(), Ok(ToolChain::LLVM())));
    assert!(matches!(config("/p", "a", TargetType::Executable, "msvc").get_toolchain(), Ok(ToolChain::MSVC())));
    match config("/p", "a", TargetType::Executable, "tcc").get_toolchain() {
        Err(BuildError::UnknownToolchain(n)) => assert_eq!(n, "tcc"),
        _ => panic!("expected an unknown toolchain"),
    }
}

fn objects(paths: &[&str]) -> ObjectCollection {
    ObjectCollection { objects: paths.iter().map(|p| Object { path: p.to_string(), modified: None }).collect() }
}

#[test]
fn object_arguments() {
    let objs = objects(&["/b/a.o", "/b/b.o"]);
    assert_eq!(objs.to_arg_str(false), "/b/a.o /b/b.o ");
    assert_eq!(objs.to_args(false), vec!["/b/a.o", "/b/b.o"]);
    assert_eq!(objects(&[]).to_arg_str(false), "");
    let verbatim = objects(&["\\\\?\\C:\\b\\a.obj", "C:\\b\\b.obj"]);
    assert_eq!(verbatim.to_args(true), vec!["C:\\b\\a.obj", "C:\\b\\b.obj"]);
    assert_eq!(verbatim.to_arg_str(true), "C:\\b\\a.obj C:\\b\\b.obj ");
    assert_eq!(verbatim.to_args(false)[0], "\\\\?\\C:\\b\\a.obj");
}

#[test]
fn split_keeps_empty_pieces() {
    assert_eq!(split_on_space("-shared -o"), vec!["-shared", "-o"]);
    assert_eq!(split_on_space("rcs"), vec!["rcs"]);
    assert_eq!(split_on_space(""), vec![""]);
    assert_eq!(split_on_space("a  b "), vec!["a", "", "b", ""]);
}

#[test]
fn executable_link_command() {
    let c = config("/p", "app", TargetType::Executable, "gnu");
    let cmd = link::<Unixy>(objects(&["/b/main.o"]), TargetType::Executable, &c, false);
    assert_eq!(cmd.program, "c++");
    assert_eq!(cmd.output_path, "/p/out/app");
    assert_eq!(cmd.args, vec!["/b/main.o", "-o", "/p/out/app", "stale.a", "-L/usr/lib", "-lm", "-lz"]);
    let win = link::<Windowsy>(objects(&["/b/main.obj"]), TargetType::Executable, &c, false);
    assert_eq!(win.args[2], "/p/out/app.exe");
    let dotted = config("/p", "app.v2", TargetType::Executable, "gnu");
    let cmd = link::<Windowsy>(objects(&["\\\\?\\C:\\b\\m.obj"]), TargetType::Executable, &dotted, true);
    assert_eq!(cmd.args[0], "C:\\b\\m.obj");
    assert_eq!(cmd.args[2], "/p/out/app.v2.exe");
    // The recorded artifact is the file the linker writes.
    assert_eq!(get_target_output_path::<Windowsy>(&dotted, TargetType::Executable), cmd.args[2]);
}

#[test]
fn library_link_commands() {
    let c = config("/p", "net", TargetType::StaticLib, "gnu");
    let st = link::<Unixy>(objects(&["/b/x.o"]), TargetType::StaticLib, &c, false);
    assert_eq!(st.program, "ar");
    assert_eq!(st.args, vec!["rcs", "/p/out/net.a", "stale.a", "/b/x.o", "-L/usr/lib", "-lm", "-lz"]);
    let sh = link::<Unixy>(objects(&["/b/x.o"]), TargetType::SharedLib, &c, false);
    assert_eq!(sh.args, vec!["-shared", "-o", "/p/out/net.so", "stale.a", "/b/x.o", "-L/usr/lib", "-lm", "-lz"]);
    let ob = link::<Unixy>(objects(&["/b/x.o"]), TargetType::ObjectLib, &c, false);
    assert_eq!(ob.program, "ld");
    assert_eq!(ob.args, vec!["/b/x.o", "-r", "-o", "/p/out/net.o", "stale.a", "-L/usr/lib", "-lm", "-lz"]);
}

fn module(dir: &str, name: &str, kind: TargetType, children: Vec<ModuleGraph>) -> ModuleGraph {
    let mut c = config(dir, name, kind, "gnu");
    c.extra_link_files = Vec::new();
    ModuleGraph { id: dir.to_string(), config: c, children }
}

#[test]
fn schedule_builds_children_first_and_links_their_libraries() {
    let net = module("/p/net", "net", TargetType::StaticLib, vec![]);
    let tool = module("/p/tool", "tool", TargetType::Executable, vec![]);
    let mut root = module("/p", "app", TargetType::Executable, vec![net, tool]);
    root.config.export_compile_commands = true;
    let plan = BuildPlan::from_module_graph(&root).unwrap();
    assert!(plan.can_execute());
    let schedule = execute_build_plan::<Unixy, Unixy, Windowsy>(&plan).unwrap();
    assert_eq!(schedule.steps.len(), 3);
    assert_eq!(schedule.steps[0].target_id, "/p/net");
    assert_eq!(schedule.steps[0].artifact.output, "/p/out/modules/net/net.a");
    assert_eq!(schedule.steps[1].artifact.output, "/p/out/modules/tool/tool");
    let last = &schedule.steps[2];
    assert_eq!(last.target_id, "/p");
    assert_eq!(last.artifact.module_id, "/p");
    assert_eq!(last.artifact.output, "/p/out/app");
    assert_eq!(last.config.extra_link_files, vec!["/p/out/modules/net/net.a"]);
    assert_eq!(schedule.compile_commands_output.as_deref(), Some("/p/build/compile_commands.json"));
}

#[test]
fn schedule_refuses_unknown_toolchains() {
    let mut root = module("/p", "app", TargetType::Executable, vec![]);
    root.config.toolchain = "zig".to_string();
    let plan = BuildPlan::from_module_graph(&root).unwrap();
    match execute_build_plan::<Unixy, Unixy, Unixy>(&plan) {
        Err(BuildError::UnknownToolchain(n)) => assert_eq!(n, "zig"),
        _ => panic!("expected an unknown toolchain"),
    }
}

#[test]
fn schedule_without_export() {
    let root = module("/p", "app", TargetType::SharedLib, vec![]);
    let plan = BuildPlan::from_module_graph(&root).unwrap();
    let schedule = execute_build_plan::<Windowsy, Unixy, Unixy>(&plan).unwrap();
    assert_eq!(schedule.steps[0].artifact.output, "/p/out/app.dll");
    assert!(schedule.compile_commands_output.is_none());
    let broken = BuildPlan { root_id: "/q".to_string(), targets: plan.targets.clone(), order: plan.order.clone() };
    assert!(!broken.can_execute());
}

#[test]
fn one_target_is_planned_with_its_toolchain() {
    let c = config("/p", "app", TargetType::SharedLib, "gnu");
    let deps = vec![artifact("/o/libz.a", TargetType::StaticLib), artifact("/o/tool", TargetType::Executable)];
    let (planned, out) = plan_with_toolchain::<Windowsy>(&c, &deps);
    assert_eq!(planned.extra_link_files, vec!["/o/libz.a"]);
    assert_eq!(out.output, "/p/out/app.dll");
    assert_eq!(out.module_id, "/p");
    assert_eq!(out.target_type, TargetType::SharedLib);

    let target = TargetPlan { id: "/p".to_string(), config: config("/p", "app", TargetType::StaticLib, "LLVM"), deps: vec![] };
    let step = build_target::<Unixy, Windowsy, Unixy>(&target, &deps).unwrap();
    assert_eq!(step.target_id, "/p");
    assert_eq!(step.toolchain, ToolChain::LLVM());
    assert_eq!(step.artifact.output, "/p/out/app.lib");
    assert_eq!(step.config.extra_link_files, vec!["/o/libz.a"]);

    let odd = TargetPlan { id: "/p".to_string(), config: config("/p", "app", TargetType::StaticLib, "tcc"), deps: vec![] };
    match build_target::<Unixy, Unixy, Unixy>(&odd, &deps) {
        Err(BuildError::UnknownToolchain(n)) => assert_eq!(n, "tcc"),
        _ => panic!("expected an unknown toolchain"),
    }
}

struct Slashy;

impl ToolChainTrait for Slashy {
    const CC: &'static str = "cc";
    const CXX: &'static str = "c++";
    const DEBUG_FLAG: &'static str = "-g";
    const EXECUTABLE_LINKER: &'static str = "c++";
    const STATIC_LIB_LINKER: &'static str = "ar";
    const SHARED_LIB_LINKER: &'static str = "c++";
    const OBJECT_LIB_LINKER: &'static str = "ld";
    const EXECUTABLE_OUTPUT_FLAG: &'static str = "-o";
    const STATIC_LIB_OUTPUT_FLAG: &'static str = "rcs";
    const SHARED_LIB_OUTPUT_FLAG: &'static str = "-shared -o";
    const OBJECT_LIB_OUTPUT_FLAG: &'static str = "-r -o";
    const EXECUTABLE_EXTENSION: &'static str = "";
    const STATIC_LIB_EXTENSION: &'static str = "lib/a";
    const SHARED_LIB_EXTENSION: &'static str = "so";
    const OBJECT_LIB_EXTENSION: &'static str = "o";
    const ONLY_COMPILE_FLAG: &'static str = "-c";
    const DEFINE_FLAG_PREFIX: &'static str = "-D";
    const INCLUDE_FLAG_PREFIX: &'static str = "-I";
    const LINK_DIR_FLAG_PREFIX: &'static str = "-L";
    const LINK_LIB_FLAG_PREFIX: &'static str = "-l";
}

#[test]
fn extensions_must_be_plain() {
    assert!(has_plain_extensions::<Unixy>());
    assert!(has_plain_extensions::<Windowsy>());
    assert!(!has_plain_extensions::<Slashy>());
}

#[test]
fn shipped_toolchains_have_plain_extensions() {
    assert!(has_plain_extensions::<GNU>());
    assert!(has_plain_extensions::<LLVM>());
    assert!(has_plain_extensions::<MSVC>());
    let c = config("/p", "app", TargetType::Executable, "msvc");
    assert_eq!(get_target_output_path::<MSVC>(&c, TargetType::Executable), "/p/out/app.exe");
    assert_eq!(get_target_output_path::<GNU>(&c, TargetType::StaticLib), "/p/out/app.a");
}

#[test]
fn compile_invocations() {
    let mut c = config("/p", "app", TargetType::Executable, "gnu");
    c.flags = Some(vec!["-O2".to_string()]);
    c.cflags = Some(vec!["-std=c11".to_string()]);
    c.cxxflags = Some(vec!["-std=c++17".to_string()]);
    c.defines = Some(vec!["NDEBUG".to_string()]);
    c.include_dirs = Some(vec!["/p/include".to_string()]);
    let cc = compile_invocation::<Unixy>("/p/src/main.c", &c);
    assert_eq!(cc.program, "cc");
    assert_eq!(cc.object_path, "/p/build/main.o");
    assert_eq!(
        cc.args,
        vec!["-O2", "-std=c11", "-DNDEBUG", "-I/p/include", "-c", "/p/src/main.c", "-o", "/p/build/main.o"]
    );
    assert_eq!(cc.entry.directory, "/p");
    assert_eq!(cc.entry.file, "/p/src/main.c");
    assert_eq!(cc.entry.command, "cc -O2 -std=c11 -DNDEBUG -I/p/include -c /p/src/main.c -o /p/build/main.o");
    let cxx = compile_invocation::<Windowsy>("/p/src/util.cpp", &c);
    assert_eq!(cxx.program, "cl");
    assert_eq!(cxx.object_path, "/p/build/util.obj");
    assert_eq!(cxx.args[1], "-std=c++17");
    assert_eq!(cxx.args[2], "/DNDEBUG");
    c.flags = None;
    c.cxxflags = None;
    c.defines = None;
    c.include_dirs = None;
    let bare = compile_invocation::<Unixy>("/p/src/x.cc", &c);
    assert_eq!(bare.program, "c++");
    assert_eq!(bare.args, vec!["-c", "/p/src/x.cc", "-o", "/p/build/x.o"]);
}
