# cxon

A build tool for C and C++ projects made of modules. Each module is
configured by its own `cxon.json` and may name child modules; the tool loads
the module tree, flattens it into a build plan in which every module comes
after the modules it depends on, and builds each target with the toolchain
family (GNU, LLVM or MSVC) its configuration selects.

## Layout

- `src/` is the library, verified with Verus:
  - `project_graph` loads the module tree from the configurations read so
    far, and names the next configuration file it needs, a cyclic module or
    a toolchain mismatch;
  - `build_plan` collects the targets of a module tree, moves submodule
    artifacts below the root's folders and orders the targets
    topologically;
  - `build_executor` decides, target by target, the configuration, link
    inputs, toolchain and artifact of every build step;
  - `toolchain::compiler` and `toolchain::linker` decide the compiler
    command of a source and the linker command of a target; `toolchain::gnu`,
    `llvm` and `msvc` hold the three toolchain families;
  - `cxon`, `compile_commands_json`, `cli::arg`, `object::output`, `paths`
    hold the configuration, the compile database entries, the command-line
    project directory, object lists and paths, which are read by
    `std::path` as the platform reads them.
- `app/` is the command-line program: it reads configuration files, runs
  compilers and linkers on worker threads and writes
  `compile_commands.json`.
- `tests/` runs the library on concrete projects.
