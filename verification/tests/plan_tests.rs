use cxon::build_plan::{BuildPlan, TargetPlan};
use cxon::cxon::{CxonConfig, ModuleRef};
use cxon::error::{BuildError, GraphError};
use cxon::project_graph::{load_module_graph, ConfigStore, ModuleGraph};
use cxon::toolchain::TargetType;

fn config(dir: &str, toolchain: &str, modules: &[&str]) -> CxonConfig {
    CxonConfig {
        project: "demo".to_string(),
        target_name: "app".to_string(),
        target_type: TargetType::Executable,
        toolchain: toolchain.to_string(),
        threads: None,
        project_dir: dir.to_string(),
        build_dir: format!("{}/build", dir),
        output_dir: format!("{}/out", dir),
        flags: None,
        cflags: None,
        cxxflags: None,
        defines: None,
        include_dirs: None,
        sources: None,
        link: None,
        libs: None,
        modules: if modules.is_empty() {
            None
        } else {
            Some(modules.iter().map(|m| ModuleRef { path: m.to_string() }).collect())
        },
        export_compile_commands: false,
        export_compile_commands_path: None,
        extra_link_files: Vec::new(),
    }
}

fn node(id: &str, children: Vec<ModuleGraph>) -> ModuleGraph {
    ModuleGraph { id: id.to_string(), config: config(id, "gnu", &[]), children }
}

fn position(order: &[String], id: &str) -> usize {
    order.iter().position(|x| x == id).unwrap()
}

#[test]
fn single_module_plan_has_one_target() {
    let root = node("/p", vec![]);
    let plan = BuildPlan::from_module_graph(&root).unwrap();
    assert_eq!(plan.root_id, "/p");
    assert_eq!(plan.targets.len(), 1);
    assert_eq!(plan.order, vec!["/p".to_string()]);
    // A single target keeps its own artifact folders.
    assert_eq!(plan.targets[0].config.build_dir, "/p/build");
    assert_eq!(plan.targets[0].config.output_dir, "/p/out");
}

#[test]
fn dependencies_come_before_dependents() {
    let shared = node("/p/libs/common", vec![]);
    let a = node("/p/a", vec![node("/p/libs/common", vec![])]);
    let b = node("/p/b", vec![shared]);
    let root = node("/p", vec![a, b]);
    let plan = BuildPlan::from_module_graph(&root).unwrap();
    assert_eq!(plan.targets.len(), 4);
    assert_eq!(plan.order.len(), 4);
    assert_eq!(
        plan.order,
        vec!["/p/libs/common".to_string(), "/p/a".to_string(), "/p/b".to_string(), "/p".to_string()]
    );
    for t in &plan.targets {
        for d in &t.deps {
            assert!(position(&plan.order, d) < position(&plan.order, &t.id));
        }
    }
    assert_eq!(plan.order.last().unwrap(), "/p");
}

#[test]
fn targets_are_collected_depth_first_without_repeats() {
    let root = node("/p", vec![node("/p/a", vec![node("/p/c", vec![])]), node("/p/b", vec![node("/p/c", vec![])])]);
    let plan = BuildPlan::from_module_graph(&root).unwrap();
    let ids: Vec<&str> = plan.targets.iter().map(|t| t.id.as_str()).collect();
    assert_eq!(ids, vec!["/p", "/p/a", "/p/c", "/p/b"]);
    assert_eq!(plan.targets[0].deps, vec!["/p/a".to_string(), "/p/b".to_string()]);
}

#[test]
fn submodule_artifacts_move_below_the_root() {
    let root = node("/p", vec![node("/p/libs/net", vec![])]);
    let plan = BuildPlan::from_module_graph(&root).unwrap();
    let sub = plan.targets.iter().find(|t| t.id == "/p/libs/net").unwrap();
    assert_eq!(sub.config.build_dir, "/p/build/modules/libs/net");
    assert_eq!(sub.config.output_dir, "/p/out/modules/libs/net");
    let top = plan.root_target().unwrap();
    assert_eq!(top.config.build_dir, "/p/build");
}

#[test]
fn module_outside_the_root_uses_its_folder_name() {
    let root = node("/p/app", vec![node("/p/shared", vec![])]);
    let plan = BuildPlan::from_module_graph(&root).unwrap();
    let sub = plan.targets.iter().find(|t| t.id == "/p/shared").unwrap();
    assert_eq!(sub.config.build_dir, "/p/app/build/modules/shared");
}

#[test]
fn module_without_folder_name_is_refused() {
    let root = node("/p/app", vec![node("/", vec![])]);
    match BuildPlan::from_module_graph(&root) {
        Err(BuildError::ModuleFolderName(d)) => assert_eq!(d, "/"),
        _ => panic!("expected a folder name error"),
    }
}

#[test]
fn cycle_in_hand_built_graph_is_reported() {
    // The second occurrence of /p carries no children, but the target of /p
    // already depends on /p/a, which depends back on /p.
    let root = node("/p", vec![node("/p/a", vec![node("/p", vec![])])]);
    match BuildPlan::from_module_graph(&root) {
        Err(BuildError::Cycle(id)) => assert_eq!(id, "/p"),
        _ => panic!("expected a cycle"),
    }
}

#[test]
fn root_target_missing_is_an_error() {
    let plan = BuildPlan { root_id: "/p".to_string(), targets: Vec::new(), order: Vec::new() };
    assert!(matches!(plan.root_target(), Err(BuildError::RootTargetMissing)));
    let plan = BuildPlan {
        root_id: "/p".to_string(),
        targets: vec![TargetPlan { id: "/p".to_string(), config: config("/p", "gnu", &[]), deps: vec![] }],
        order: vec!["/p".to_string()],
    };
    assert_eq!(plan.root_target().unwrap().id, "/p");
}

fn load_all(root: &str, files: &[(&str, &str, CxonConfig)]) -> Result<ModuleGraph, GraphError> {
    let mut store = ConfigStore::new();
    loop {
        match load_module_graph(root, &store) {
            Err(GraphError::ConfigNeeded(p)) => {
                let (_, id, cfg) = files.iter().find(|(path, _, _)| *path == p).expect("unknown file");
                store.record(p.clone(), id.to_string(), cfg.clone());
            }
            other => return other,
        }
    }
}

#[test]
fn graph_is_loaded_from_the_store() {
    let files = vec![
        ("/p", "/p", config("/p", "GNU", &["a", "b"])),
        ("/p/a", "/p/a", config("/p/a", "gnu", &["../c"])),
        ("/p/b", "/p/b", config("/p/b", "Gnu", &["/p/c"])),
        ("/p/a/../c", "/p/c", config("/p/c", "gnu", &[])),
        ("/p/c", "/p/c", config("/p/c", "gnu", &[])),
    ];
    let g = load_all("/p", &files).unwrap();
    assert_eq!(g.id, "/p");
    assert!(g.config.modules.is_none());
    assert_eq!(g.children.len(), 2);
    assert_eq!(g.children[0].id, "/p/a");
    assert_eq!(g.children[0].children[0].id, "/p/c");
    assert_eq!(g.children[1].children[0].id, "/p/c");
    let plan = BuildPlan::from_module_graph(&g).unwrap();
    assert_eq!(plan.order.last().unwrap(), "/p");
    assert_eq!(plan.targets.len(), 4);
}

#[test]
fn first_missing_configuration_is_requested() {
    let store = ConfigStore::new();
    match load_module_graph("/p", &store) {
        Err(GraphError::ConfigNeeded(p)) => assert_eq!(p, "/p"),
        _ => panic!("expected a request"),
    }
    let mut store = ConfigStore::new();
    store.record("/p".to_string(), "/p".to_string(), config("/p", "gnu", &["sub"]));
    match load_module_graph("/p", &store) {
        Err(GraphError::ConfigNeeded(p)) => assert_eq!(p, "/p/sub"),
        _ => panic!("expected a request"),
    }
}

#[test]
fn cyclic_modules_are_reported() {
    let files = vec![
        ("/p", "/p", config("/p", "gnu", &["a"])),
        ("/p/a", "/p/a", config("/p/a", "gnu", &[".."])),
        ("/p/a/..", "/p", config("/p", "gnu", &["a"])),
    ];
    match load_all("/p", &files) {
        Err(GraphError::CyclicModule(id)) => assert_eq!(id, "/p"),
        _ => panic!("expected a cycle"),
    }
}

#[test]
fn toolchain_mismatch_is_reported() {
    let files = vec![
        ("/p", "/p", config("/p", "gnu", &["a"])),
        ("/p/a", "/p/a", config("/p/a", "llvm", &[])),
    ];
    match load_all("/p", &files) {
        Err(GraphError::ToolchainMismatch { parent, child }) => {
            assert_eq!(parent, "/p");
            assert_eq!(child, "/p/a");
        }
        _ => panic!("expected a mismatch"),
    }
}

#[test]
fn store_keeps_first_reading() {
    let mut store = ConfigStore::new();
    store.record("/p".to_string(), "/p".to_string(), config("/p", "gnu", &[]));
    store.record("/p".to_string(), "/q".to_string(), config("/q", "llvm", &[]));
    store.record("/x".to_string(), "/p".to_string(), config("/p", "msvc", &[]));
    assert_eq!(store.id_of("/p").unwrap(), "/p");
    assert_eq!(store.id_of("/x").unwrap(), "/p");
    assert_eq!(store.config_of("/p").unwrap().toolchain, "gnu");
    // The identity /q was not configured before, so its configuration is kept.
    assert_eq!(store.config_of("/q").unwrap().toolchain, "llvm");
    assert!(store.id_of("/y").is_none());
}

fn families(g: &ModuleGraph, out: &mut Vec<String>) {
    out.push(g.config.toolchain.to_lowercase());
    for c in &g.children {
        families(c, out);
    }
}

#[test]
fn loaded_tree_keeps_one_toolchain_family() {
    let files = vec![
        ("/p", "/p", config("/p", "LLVM", &["a"])),
        ("/p/a", "/p/a", config("/p/a", "llvm", &["b"])),
        ("/p/a/b", "/p/a/b", config("/p/a/b", "Llvm", &[])),
    ];
    let g = load_all("/p", &files).unwrap();
    let mut seen = Vec::new();
    families(&g, &mut seen);
    assert_eq!(seen, vec!["llvm", "llvm", "llvm"]);
    // The plan of a loaded graph is never refused for a cycle.
    let plan = BuildPlan::from_module_graph(&g).unwrap();
    assert_eq!(plan.order, vec!["/p/a/b", "/p/a", "/p"]);
}

#[test]
fn first_failing_child_decides() {
    // The first child is not read yet, the second selects another family.
    let mut store = ConfigStore::new();
    store.record("/p".to_string(), "/p".to_string(), config("/p", "gnu", &["a", "b"]));
    store.record("/p/b".to_string(), "/p/b".to_string(), config("/p/b", "msvc", &[]));
    match load_module_graph("/p", &store) {
        Err(GraphError::ConfigNeeded(p)) => assert_eq!(p, "/p/a"),
        _ => panic!("expected a request"),
    }
    // The first child selects another family, the second is not read yet.
    let mut store = ConfigStore::new();
    store.record("/p".to_string(), "/p".to_string(), config("/p", "gnu", &["b", "a"]));
    store.record("/p/b".to_string(), "/p/b".to_string(), config("/p/b", "msvc", &[]));
    match load_module_graph("/p", &store) {
        Err(GraphError::ToolchainMismatch { parent, child }) => {
            assert_eq!(parent, "/p");
            assert_eq!(child, "/p/b");
        }
        _ => panic!("expected a mismatch"),
    }
}

#[test]
fn plans_and_graphs_clone_whole() {
    let root = node("/p", vec![node("/p/a", vec![node("/p/a/b", vec![])])]);
    let copy = root.clone();
    assert_eq!(copy.children[0].children[0].id, "/p/a/b");
    let plan = BuildPlan::from_module_graph(&copy).unwrap();
    let again = plan.clone();
    assert_eq!(again.root_id, plan.root_id);
    assert_eq!(again.order, plan.order);
    assert_eq!(again.targets.len(), 3);
    assert_eq!(again.targets[1].config.build_dir, "/p/build/modules/a");
}

#[test]
fn root_file_and_directory_load_alike() {
    let files = vec![
        ("/p", "/p", config("/p", "gnu", &["a"])),
        ("/p/cxon.json", "/p", config("/p", "gnu", &["a"])),
        ("/p/a", "/p/a", config("/p/a", "gnu", &[])),
    ];
    let by_dir = load_all("/p", &files).unwrap();
    let by_file = load_all("/p/cxon.json", &files).unwrap();
    assert_eq!(by_dir.id, by_file.id);
    assert_eq!(by_dir.children.len(), by_file.children.len());
    assert_eq!(by_dir.children[0].id, by_file.children[0].id);
}

#[test]
fn submodule_folders_stay_below_the_root() {
    let root = node("/p", vec![node("/p/libs/net", vec![]), node("/q/tools", vec![])]);
    let plan = BuildPlan::from_module_graph(&root).unwrap();
    for t in plan.targets.iter().filter(|t| t.id != "/p") {
        assert!(t.config.build_dir.starts_with("/p/build/modules/"));
        assert!(t.config.output_dir.starts_with("/p/out/modules/"));
        assert!(!t.config.build_dir.contains(".."));
    }
}
