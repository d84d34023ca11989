//! Build execution for module-aware plans.
//!
//! Targets are built in plan order, so children are built before their
//! parents, and the linkable artifacts of a target's dependencies are added
//! to its link inputs. This module decides every step: which configuration
//! each target is built with, which toolchain family, and which artifact it
//! yields. Running the compilers and linkers is left to the caller.

use vstd::prelude::*;

use crate::build_plan::{
    BuildPlan, TargetPlan, TargetPlanView, edge, find_target, first_target, has_target, is_topological,
    lemma_first_target_member,
};
use crate::compile_commands_json::{compile_commands_path, spec_compile_commands_path};
use crate::cxon::{CxonConfig, CxonConfigView, toolchain_of_name};
use crate::error::BuildError;
use crate::paths::{
    join_path, path_with_added_extension, path_with_extension, spec_join, spec_with_added_extension, spec_with_extension,
};
use crate::toolchain::linker::linker_args;
use crate::toolchain::{TargetType, ToolChain, ToolChainTrait, plain_extensions};

verus! {

/// What building one target produced.
pub struct Artifact {
    /// Module that produced this artifact.
    pub module_id: String,
    /// Path of the produced output file.
    pub output: String,
    /// Artifact kind used for downstream link decisions.
    pub target_type: TargetType,
}

pub struct ArtifactView {
    pub module_id: Seq<char>,
    pub output: Seq<char>,
    pub target_type: TargetType,
}

impl View for Artifact {
    type V = ArtifactView;

    open spec fn view(&self) -> ArtifactView {
        ArtifactView { module_id: self.module_id@, output: self.output@, target_type: self.target_type }
    }
}

impl DeepView for Artifact {
    type V = ArtifactView;

    open spec fn deep_view(&self) -> ArtifactView {
        self@
    }
}

impl Clone for Artifact {
    fn clone(&self) -> (r: Self)
        ensures
            r@ == self@,
    {
        Artifact { module_id: self.module_id.clone(), output: self.output.clone(), target_type: self.target_type }
    }
}

/// The outputs of the artifacts that can be linked, in order: shared,
/// static and object libraries; executables are left out.
pub open spec fn linkable_outputs(deps: Seq<ArtifactView>) -> Seq<Seq<char>>
    decreases deps.len(),
{
    if deps.len() == 0 {
        Seq::empty()
    } else {
        let rest = linkable_outputs(deps.drop_last());
        if deps.last().target_type == TargetType::Executable {
            rest
        } else {
            rest.push(deps.last().output)
        }
    }
}

/// `c` with its link inputs replaced by the linkable outputs of `deps`.
pub open spec fn injected(c: CxonConfigView, deps: Seq<ArtifactView>) -> CxonConfigView {
    CxonConfigView { extra_link_files: linkable_outputs(deps), ..c }
}

/// Injects child module artifacts into the parent target's link inputs:
/// the previous link inputs are dropped, then every linkable artifact is
/// added as a plain file.
pub fn inject_dependency_artifacts(cxon: &mut CxonConfig, dep_artifacts: &[Artifact])
    ensures
        final(cxon)@ == injected(old(cxon)@, dep_artifacts@.map_values(|a: Artifact| a@)),
{
    let ghost deps = dep_artifacts@.map_values(|a: Artifact| a@);
    cxon.clear_extra_link_files();
    let mut i: usize = 0;
    while i < dep_artifacts.len()
        invariant
            i <= dep_artifacts@.len(),
            deps == dep_artifacts@.map_values(|a: Artifact| a@),
            cxon@ == injected(old(cxon)@, deps.subrange(0, i as int)),
        decreases dep_artifacts.len() - i,
    {
        let artifact = &dep_artifacts[i];
        proof {
            assert(deps.subrange(0, i + 1).drop_last() =~= deps.subrange(0, i as int));
            assert(deps.subrange(0, i + 1).last() == artifact@);
        }
        match artifact.target_type {
            TargetType::SharedLib | TargetType::StaticLib => {
                cxon.add_extra_link_file(artifact.output.clone());
            },
            TargetType::ObjectLib => {
                cxon.add_extra_link_file(artifact.output.clone());
            },
            TargetType::Executable => {},
        }
        i = i + 1;
    }
    assert(deps.subrange(0, i as int) =~= deps);
}

/// The output file of a target of kind `target_type` built with `T`.
pub open spec fn output_path_spec<T: ToolChainTrait>(c: CxonConfigView, target_type: TargetType) -> Seq<char> {
    let base = spec_join(c.output_dir, c.target_name);
    match target_type {
        TargetType::Executable => if T::EXECUTABLE_EXTENSION@.len() == 0 {
            base
        } else {
            spec_with_added_extension(base, T::EXECUTABLE_EXTENSION@)
        },
        TargetType::StaticLib => spec_with_extension(base, T::STATIC_LIB_EXTENSION@),
        TargetType::SharedLib => spec_with_extension(base, T::SHARED_LIB_EXTENSION@),
        TargetType::ObjectLib => spec_with_extension(base, T::OBJECT_LIB_EXTENSION@),
    }
}

/// Computes the final output path for one target kind and toolchain.
pub fn get_target_output_path<T: ToolChainTrait>(cxon: &CxonConfig, target_type: TargetType) -> (r: String)
    requires
        plain_extensions::<T>(),
    ensures
        r@ == output_path_spec::<T>(cxon@, target_type),
{
    let name = cxon.get_target_name();
    let output_base = join_path(cxon.output_dir.as_str(), name.as_str());
    match target_type {
        TargetType::Executable => {
            if T::EXECUTABLE_EXTENSION.unicode_len() == 0 {
                output_base
            } else {
                path_with_added_extension(output_base.as_str(), T::EXECUTABLE_EXTENSION)
            }
        },
        TargetType::StaticLib => path_with_extension(output_base.as_str(), T::STATIC_LIB_EXTENSION),
        TargetType::SharedLib => path_with_extension(output_base.as_str(), T::SHARED_LIB_EXTENSION),
        TargetType::ObjectLib => path_with_extension(output_base.as_str(), T::OBJECT_LIB_EXTENSION),
    }
}

/// The artifact that building a target configured by `c` with `T` yields.
pub open spec fn artifact_spec<T: ToolChainTrait>(c: CxonConfigView) -> ArtifactView {
    ArtifactView {
        module_id: c.project_dir,
        output: output_path_spec::<T>(c, c.target_type),
        target_type: c.target_type,
    }
}

/// The artifact of a target configured by `c` for the toolchain family `tc`,
/// where `G`, `L` and `M` are the GNU, LLVM and MSVC toolchains.
pub open spec fn artifact_for<G: ToolChainTrait, L: ToolChainTrait, M: ToolChainTrait>(
    c: CxonConfigView,
    tc: ToolChain,
) -> ArtifactView {
    match tc {
        ToolChain::GNU() => artifact_spec::<G>(c),
        ToolChain::LLVM() => artifact_spec::<L>(c),
        ToolChain::MSVC() => artifact_spec::<M>(c),
    }
}

/// Describes the artifact that building with `T` yields.
fn target_artifact<T: ToolChainTrait>(cxon: &CxonConfig) -> (r: Artifact)
    requires
        plain_extensions::<T>(),
    ensures
        r@ == artifact_spec::<T>(cxon@),
{
    let target_type = cxon.get_target_type();
    Artifact {
        module_id: cxon.project_dir.clone(),
        output: get_target_output_path::<T>(cxon, target_type),
        target_type,
    }
}

// ---------------------------------------------------------------------------
// Compile threads.
// ---------------------------------------------------------------------------

/// Calls `num_cpus::get`, the number of logical CPUs available, which its
/// documentation promises to be at least 1. The number depends on the
/// machine; nothing else is claimed of it.
#[verifier::external_body]
fn available_cpus() -> (r: usize)
    ensures
        r >= 1,
{
    num_cpus::get()
}

/// The number of compile threads: the configured count, or one less than
/// the number of CPUs, but at least one.
pub open spec fn thread_count_spec(threads: Option<usize>, cpus: usize) -> usize {
    match threads {
        Some(count) => count,
        None => if cpus <= 2 { 1 } else { (cpus - 1) as usize },
    }
}

/// The number of compile threads for a given number of CPUs.
pub fn thread_count_for(threads: Option<usize>, cpus: usize) -> (r: usize)
    ensures
        r == thread_count_spec(threads, cpus),
{
    match threads {
        Some(count) => count,
        None => {
            let spare = cpus.saturating_sub(1);
            if spare < 1 {
                1
            } else {
                spare
            }
        },
    }
}

/// The number of compile threads on this machine: the configured count,
/// or one less than the number of CPUs found here, but at least one.
pub fn compile_thread_count(threads: Option<usize>) -> (r: usize)
    ensures
        threads matches Some(count) ==> r == count,
        threads is None ==> exists|cpus: usize| cpus >= 1 && r == thread_count_spec(threads, cpus),
{
    match threads {
        Some(count) => count,
        None => {
            let cpus = available_cpus();
            let r = thread_count_for(None, cpus);
            assert(cpus >= 1 && r == thread_count_spec(threads, cpus));
            r
        },
    }
}


// ---------------------------------------------------------------------------
// The build schedule.
// ---------------------------------------------------------------------------

/// How one target is to be built.
pub struct BuildStep {
    pub target_id: String,
    pub toolchain: ToolChain,
    /// The target's configuration with its dependency artifacts injected.
    pub config: CxonConfig,
    /// What the build yields.
    pub artifact: Artifact,
}

pub struct BuildStepView {
    pub target_id: Seq<char>,
    pub toolchain: ToolChain,
    pub config: CxonConfigView,
    pub artifact: ArtifactView,
}

impl View for BuildStep {
    type V = BuildStepView;

    open spec fn view(&self) -> BuildStepView {
        BuildStepView {
            target_id: self.target_id@,
            toolchain: self.toolchain,
            config: self.config@,
            artifact: self.artifact@,
        }
    }
}

/// Every target of a plan in build order, and where
/// `compile_commands.json` is exported to, if it is.
pub struct BuildSchedule {
    pub steps: Vec<BuildStep>,
    pub compile_commands_output: Option<String>,
}

pub open spec fn step_views(steps: Seq<BuildStep>) -> Seq<BuildStepView> {
    steps.map_values(|s: BuildStep| s@)
}

/// The artifact of the latest of the first `n` steps that built `id`.
pub open spec fn latest_artifact(prev: Seq<BuildStepView>, n: int, id: Seq<char>) -> Option<ArtifactView>
    decreases n,
{
    if n <= 0 {
        None
    } else if prev[n - 1].target_id == id {
        Some(prev[n - 1].artifact)
    } else {
        latest_artifact(prev, n - 1, id)
    }
}

/// The artifacts already built for `deps`, in the order of `deps`; a
/// dependency not built yet is skipped.
pub open spec fn dependency_artifacts(prev: Seq<BuildStepView>, deps: Seq<Seq<char>>) -> Seq<ArtifactView>
    decreases deps.len(),
{
    if deps.len() == 0 {
        Seq::empty()
    } else {
        let rest = dependency_artifacts(prev, deps.drop_last());
        match latest_artifact(prev, prev.len() as int, deps.last()) {
            Some(a) => rest.push(a),
            None => rest,
        }
    }
}

/// The step that builds target `t` against the dependency artifacts
/// `deps`: its configuration gets their linkable outputs as link inputs, and
/// it is built with the toolchain family that `t` names.
pub open spec fn target_step<G: ToolChainTrait, L: ToolChainTrait, M: ToolChainTrait>(
    t: TargetPlanView,
    deps: Seq<ArtifactView>,
) -> BuildStepView {
    let config = injected(t.config, deps);
    let tc = toolchain_of_name(t.config.toolchain)->0;
    BuildStepView { target_id: t.id, toolchain: tc, config, artifact: artifact_for::<G, L, M>(config, tc) }
}

/// The step that builds target `id` after the steps `prev`.
#[verifier::opaque]
pub open spec fn planned_step<G: ToolChainTrait, L: ToolChainTrait, M: ToolChainTrait>(
    ts: Seq<TargetPlanView>,
    prev: Seq<BuildStepView>,
    id: Seq<char>,
) -> BuildStepView {
    let t = first_target(ts, id);
    BuildStepView { target_id: id, ..target_step::<G, L, M>(t, dependency_artifacts(prev, t.deps)) }
}

fn latest_artifact_of<'a>(steps: &'a Vec<BuildStep>, id: &str) -> (r: Option<&'a Artifact>)
    ensures
        match r {
            Some(a) => latest_artifact(step_views(steps@), steps@.len() as int, id@) == Some(a@),
            None => latest_artifact(step_views(steps@), steps@.len() as int, id@) is None,
        },
{
    let ghost prev = step_views(steps@);
    let mut n: usize = steps.len();
    while n > 0
        invariant
            n <= steps@.len(),
            prev == step_views(steps@),
            latest_artifact(prev, steps@.len() as int, id@) == latest_artifact(prev, n as int, id@),
        decreases n,
    {
        if crate::paths::str_eq(steps[n - 1].target_id.as_str(), id) {
            return Some(&steps[n - 1].artifact);
        }
        n = n - 1;
    }
    None
}

fn collect_dependency_artifacts(steps: &Vec<BuildStep>, deps: &Vec<String>) -> (r: Vec<Artifact>)
    ensures
        r@.map_values(|a: Artifact| a@) == dependency_artifacts(step_views(steps@), deps.deep_view()),
{
    let ghost prev = step_views(steps@);
    let mut r: Vec<Artifact> = Vec::new();
    let mut i: usize = 0;
    while i < deps.len()
        invariant
            i <= deps@.len(),
            prev == step_views(steps@),
            r@.map_values(|a: Artifact| a@) == dependency_artifacts(prev, deps.deep_view().subrange(0, i as int)),
        decreases deps.len() - i,
    {
        proof {
            let sub = deps.deep_view().subrange(0, i + 1);
            assert(sub.drop_last() =~= deps.deep_view().subrange(0, i as int));
            assert(sub.last() == deps@[i as int]@);
        }
        match latest_artifact_of(steps, deps[i].as_str()) {
            Some(a) => {
                r.push(a.clone());
                assert(r@.map_values(|a: Artifact| a@) =~= dependency_artifacts(prev, deps.deep_view().subrange(0, i as int)).push(a@));
            },
            None => {},
        }
        i = i + 1;
    }
    assert(deps.deep_view().subrange(0, i as int) =~= deps.deep_view());
    r
}

impl BuildPlan {
    /// Every module in the build order has a target, and so has the root.
    pub open spec fn is_executable(self) -> bool {
        &&& forall|i: int| 0 <= i < self@.order.len() ==> has_target(self@.targets, #[trigger] self@.order[i])
        &&& has_target(self@.targets, self@.root_id)
    }

    /// Tells whether every module in the build order, and the root, has a
    /// target.
    pub fn can_execute(&self) -> (r: bool)
        ensures
            r == self.is_executable(),
    {
        let ghost ts = self.targets.deep_view();
        let ghost order = self.order.deep_view();
        assert(ts == self@.targets && order == self@.order);
        let mut i: usize = 0;
        while i < self.order.len()
            invariant
                ts == self.targets.deep_view(),
                order == self.order.deep_view(),
                i <= order.len(),
                forall|k: int| 0 <= k < i ==> has_target(ts, #[trigger] order[k]),
            decreases self.order.len() - i,
        {
            assert(order[i as int] == self.order@[i as int]@);
            if find_target(&self.targets, self.order[i].as_str()).is_none() {
                assert(!has_target(self@.targets, self@.order[i as int]));
                return false;
            }
            i = i + 1;
        }
        find_target(&self.targets, self.root_id.as_str()).is_some()
    }
}

/// The configuration and artifact of a target built with `T`: the
/// target's configuration with the dependency artifacts injected, and the
/// output that building it yields. Compiling and linking are left to the
/// caller.
pub fn plan_with_toolchain<T: ToolChainTrait>(cxon: &CxonConfig, dep_artifacts: &[Artifact]) -> (r: (CxonConfig, Artifact))
    requires
        plain_extensions::<T>(),
    ensures
        r.0@ == injected(cxon@, dep_artifacts@.map_values(|a: Artifact| a@)),
        r.1@ == artifact_spec::<T>(r.0@),
{
    let mut config = cxon.clone();
    inject_dependency_artifacts(&mut config, dep_artifacts);
    let artifact = target_artifact::<T>(&config);
    (config, artifact)
}

/// Decides how one target is built against the artifacts of its
/// dependencies, with the toolchain family its configuration names.
pub fn build_target<G: ToolChainTrait, L: ToolChainTrait, M: ToolChainTrait>(
    target: &TargetPlan,
    dep_artifacts: &[Artifact],
) -> (r: Result<BuildStep, BuildError>)
    requires
        plain_extensions::<G>(),
        plain_extensions::<L>(),
        plain_extensions::<M>(),
    ensures
        match r {
            Ok(step) => step@ == target_step::<G, L, M>(target@, dep_artifacts@.map_values(|a: Artifact| a@))
                && toolchain_of_name(target@.config.toolchain) is Some,
            Err(e) => toolchain_of_name(target@.config.toolchain) is None
                && (e matches BuildError::UnknownToolchain(n) && n@ == target@.config.toolchain),
        },
{
    let toolchain = match target.config.get_toolchain() {
        Ok(t) => t,
        Err(e) => {
            return Err(e);
        },
    };
    let (config, artifact) = match toolchain {
        ToolChain::GNU() => plan_with_toolchain::<G>(&target.config, dep_artifacts),
        ToolChain::LLVM() => plan_with_toolchain::<L>(&target.config, dep_artifacts),
        ToolChain::MSVC() => plan_with_toolchain::<M>(&target.config, dep_artifacts),
    };
    Ok(BuildStep { target_id: target.id.clone(), toolchain, config, artifact })
}

/// `steps` builds the modules of `order` one by one, each as decided by
/// `planned_step` from the steps before it, and every module names a known
/// toolchain family.
#[verifier::opaque]
pub open spec fn is_schedule<G: ToolChainTrait, L: ToolChainTrait, M: ToolChainTrait>(
    ts: Seq<TargetPlanView>,
    order: Seq<Seq<char>>,
    steps: Seq<BuildStepView>,
) -> bool {
    &&& steps.len() == order.len()
    &&& forall|i: int| 0 <= i < steps.len() ==> #[trigger] steps[i] == planned_step::<G, L, M>(ts, steps.subrange(0, i), order[i])
    &&& forall|i: int| 0 <= i < steps.len() ==> toolchain_of_name(#[trigger] first_target(ts, order[i]).config.toolchain) is Some
}

proof fn lemma_schedule_push<G: ToolChainTrait, L: ToolChainTrait, M: ToolChainTrait>(
    ts: Seq<TargetPlanView>,
    order: Seq<Seq<char>>,
    steps: Seq<BuildStepView>,
    i: int,
    step: BuildStepView,
)
    requires
        0 <= i < order.len(),
        is_schedule::<G, L, M>(ts, order.subrange(0, i), steps),
        step == planned_step::<G, L, M>(ts, steps, order[i]),
        toolchain_of_name(first_target(ts, order[i]).config.toolchain) is Some,
    ensures
        is_schedule::<G, L, M>(ts, order.subrange(0, i + 1), steps.push(step)),
{
    reveal(is_schedule);
    let now = steps.push(step);
    let o2 = order.subrange(0, i + 1);
    assert(now.subrange(0, i) =~= steps);
    assert forall|m: int| 0 <= m < now.len() implies #[trigger] now[m] == planned_step::<G, L, M>(ts, now.subrange(0, m), o2[m]) by {
        if m < i {
            assert(now[m] == steps[m]);
            assert(now.subrange(0, m) =~= steps.subrange(0, m));
            assert(o2[m] == order.subrange(0, i)[m]);
        }
    }
    assert forall|m: int| 0 <= m < now.len() implies toolchain_of_name(#[trigger] first_target(ts, o2[m]).config.toolchain) is Some by {
        if m < i {
            assert(o2[m] == order.subrange(0, i)[m]);
        }
    }
}

/// Decides how every target of `plan` is built, in plan order, where `G`,
/// `L` and `M` are the GNU, LLVM and MSVC toolchains.
///
/// Each target is built with its own configuration, whose link inputs are
/// the linkable artifacts already built for its dependencies, and with the
/// toolchain family its configuration names. When the root module asks for
/// it, `compile_commands.json` is exported after the builds.
pub fn execute_build_plan<G: ToolChainTrait, L: ToolChainTrait, M: ToolChainTrait>(
    plan: &BuildPlan,
) -> (r: Result<BuildSchedule, BuildError>)
    requires
        plan.is_executable(),
        plain_extensions::<G>(),
        plain_extensions::<L>(),
        plain_extensions::<M>(),
    ensures
        match r {
            Ok(schedule) => {
                let root = first_target(plan@.targets, plan@.root_id).config;
                &&& is_schedule::<G, L, M>(plan@.targets, plan@.order, step_views(schedule.steps@))
                &&& schedule.compile_commands_output.deep_view() == if root.export_compile_commands {
                    Some(spec_compile_commands_path(root.export_compile_commands_path, root.build_dir))
                } else {
                    None
                }
            },
            Err(e) => exists|i: int| 0 <= i < plan@.order.len()
                && toolchain_of_name(#[trigger] first_target(plan@.targets, plan@.order[i]).config.toolchain) is None
                && (forall|j: int| 0 <= j < i ==> toolchain_of_name(
                    #[trigger] first_target(plan@.targets, plan@.order[j]).config.toolchain,
                ) is Some)
                && (e matches BuildError::UnknownToolchain(n) && n@ == first_target(plan@.targets, plan@.order[i]).config.toolchain),
        },
{
    let ghost ts = plan.targets.deep_view();
    let ghost order = plan.order.deep_view();
    assert(ts == plan@.targets && order == plan@.order);
    let mut steps: Vec<BuildStep> = Vec::new();
    proof {
        reveal(is_schedule);
        assert(step_views(steps@) =~= Seq::<BuildStepView>::empty());
    }
    let mut i: usize = 0;
    while i < plan.order.len()
        invariant
            ts == plan.targets.deep_view(),
            order == plan.order.deep_view(),
            forall|k: int| 0 <= k < order.len() ==> has_target(ts, #[trigger] order[k]),
            i <= order.len(),
            steps@.len() == i,
            is_schedule::<G, L, M>(ts, order.subrange(0, i as int), step_views(steps@)),
            plain_extensions::<G>(),
            plain_extensions::<L>(),
            plain_extensions::<M>(),
        decreases plan.order.len() - i,
    {
        let ghost prev = step_views(steps@);
        let id = &plan.order[i];
        assert(order[i as int] == id@);
        let k = match find_target(&plan.targets, id.as_str()) {
            Some(k) => k,
            None => {
                return Err(BuildError::RootTargetMissing);
            },
        };
        let target = &plan.targets[k];
        let dep_artifacts = collect_dependency_artifacts(&steps, &target.deps);
        let step = match build_target::<G, L, M>(target, dep_artifacts.as_slice()) {
            Ok(step) => step,
            Err(e) => {
                proof {
                    reveal(is_schedule);
                    assert forall|j: int| 0 <= j < i implies toolchain_of_name(
                        #[trigger] first_target(ts, order[j]).config.toolchain,
                    ) is Some by {
                        assert(order.subrange(0, i as int)[j] == order[j]);
                    }
                    assert(target@ == first_target(ts, order[i as int]));
                    assert(toolchain_of_name(first_target(plan@.targets, plan@.order[i as int]).config.toolchain) is None);
                }
                return Err(e);
            },
        };
        proof {
            reveal(planned_step);
            assert(step@.target_id == id@);
            lemma_schedule_push::<G, L, M>(ts, order, prev, i as int, step@);
        }
        steps.push(step);
        assert(step_views(steps@) =~= prev.push(step@));
        i = i + 1;
    }
    assert(order.subrange(0, i as int) =~= order);
    let root = match plan.root_target() {
        Ok(t) => t,
        Err(e) => {
            return Err(e);
        },
    };
    let compile_commands_output = if root.config.export_compile_commands {
        Some(compile_commands_path(&root.config))
    } else {
        None
    };
    Ok(BuildSchedule { steps, compile_commands_output })
}


// ---------------------------------------------------------------------------
// Laws of build execution.
// ---------------------------------------------------------------------------

/// Injecting the same dependency artifacts twice gives the link inputs of
/// injecting them once: the link input set of a build is deterministic.
pub proof fn lemma_injection_idempotent(c: CxonConfigView, deps: Seq<ArtifactView>)
    ensures
        injected(injected(c, deps), deps) == injected(c, deps),
{
}

/// Only libraries are linked: every link input comes from a dependency
/// artifact that is not an executable, and every such artifact is linked.
pub proof fn lemma_linkable_outputs_are_libraries(deps: Seq<ArtifactView>)
    ensures
        forall|i: int| 0 <= i < linkable_outputs(deps).len() ==> exists|j: int| 0 <= j < deps.len()
            && deps[j].target_type != TargetType::Executable && #[trigger] linkable_outputs(deps)[i] == deps[j].output,
        forall|j: int| 0 <= j < deps.len() && #[trigger] deps[j].target_type != TargetType::Executable
            ==> linkable_outputs(deps).contains(deps[j].output),
    decreases deps.len(),
{
    if deps.len() > 0 {
        let rest = deps.drop_last();
        lemma_linkable_outputs_are_libraries(rest);
        let r = linkable_outputs(deps);
        let rr = linkable_outputs(rest);
        assert forall|i: int| 0 <= i < r.len() implies exists|j: int| 0 <= j < deps.len()
            && deps[j].target_type != TargetType::Executable && #[trigger] r[i] == deps[j].output by {
            if i < rr.len() {
                assert(r[i] == rr[i]);
                let j = choose|j: int| 0 <= j < rest.len() && rest[j].target_type != TargetType::Executable && rr[i] == rest[j].output;
                assert(deps[j] == rest[j]);
            } else {
                assert(deps[deps.len() - 1] == deps.last());
            }
        }
        assert forall|j: int| 0 <= j < deps.len() && #[trigger] deps[j].target_type != TargetType::Executable
            implies r.contains(deps[j].output) by {
            if j < rest.len() {
                assert(deps[j] == rest[j]);
                assert(rr.contains(rest[j].output));
                let k = choose|k: int| 0 <= k < rr.len() && rr[k] == rest[j].output;
                assert(r[k] == rr[k]);
            } else {
                assert(r[r.len() - 1] == deps.last().output);
            }
        }
    }
}

proof fn lemma_latest_found(prev: Seq<BuildStepView>, n: int, id: Seq<char>, j: int)
    requires
        0 <= j < n <= prev.len(),
        prev[j].target_id == id,
    ensures
        latest_artifact(prev, n, id) is Some,
        exists|k: int| 0 <= k < n && prev[k].target_id == id && latest_artifact(prev, n, id) == Some(prev[k].artifact),
    decreases n,
{
    if prev[n - 1].target_id == id {
    } else {
        lemma_latest_found(prev, n - 1, id, j);
    }
}

/// Some of the steps `prev` built `id`.
pub open spec fn was_built(prev: Seq<BuildStepView>, id: Seq<char>) -> bool {
    exists|j: int| 0 <= j < prev.len() && #[trigger] prev[j].target_id == id
}

proof fn lemma_all_dependencies_found(prev: Seq<BuildStepView>, deps: Seq<Seq<char>>)
    requires
        forall|k: int| 0 <= k < deps.len() ==> was_built(prev, #[trigger] deps[k]),
    ensures
        dependency_artifacts(prev, deps).len() == deps.len(),
        forall|k: int| #![trigger deps[k]] 0 <= k < deps.len() ==> exists|j: int| 0 <= j < prev.len() && prev[j].target_id == deps[k]
            && dependency_artifacts(prev, deps)[k] == #[trigger] prev[j].artifact,
    decreases deps.len(),
{
    if deps.len() > 0 {
        let rest = deps.drop_last();
        assert forall|k: int| 0 <= k < rest.len() implies was_built(prev, #[trigger] rest[k]) by {
            assert(rest[k] == deps[k]);
        }
        lemma_all_dependencies_found(prev, rest);
        let n = deps.len() - 1;
        assert(was_built(prev, deps[n]));
        let j = choose|j: int| 0 <= j < prev.len() && #[trigger] prev[j].target_id == deps[n];
        lemma_latest_found(prev, prev.len() as int, deps.last(), j);
        let r = dependency_artifacts(prev, deps);
        assert forall|k: int| #![trigger deps[k]] 0 <= k < deps.len() implies exists|j: int| 0 <= j < prev.len() && prev[j].target_id == deps[k]
            && r[k] == #[trigger] prev[j].artifact by {
            if k < n {
                assert(rest[k] == deps[k]);
                assert(r[k] == dependency_artifacts(prev, rest)[k]);
            }
        }
    }
}

proof fn lemma_schedule_ids<G: ToolChainTrait, L: ToolChainTrait, M: ToolChainTrait>(
    ts: Seq<TargetPlanView>,
    order: Seq<Seq<char>>,
    steps: Seq<BuildStepView>,
)
    requires
        is_schedule::<G, L, M>(ts, order, steps),
    ensures
        steps.len() == order.len(),
        forall|j: int| 0 <= j < steps.len() ==> #[trigger] steps[j].target_id == order[j],
{
    reveal(is_schedule);
    reveal(planned_step);
    assert forall|j: int| 0 <= j < steps.len() implies #[trigger] steps[j].target_id == order[j] by {
        assert(steps[j] == planned_step::<G, L, M>(ts, steps.subrange(0, j), order[j]));
    }
}

/// Children are built before their parents: when the build order is
/// topological, every dependency of the module built at step `i` has been
/// built at an earlier step, and its artifact is among the artifacts that
/// step `i` links against, one per dependency.
pub proof fn lemma_dependencies_built_first<G: ToolChainTrait, L: ToolChainTrait, M: ToolChainTrait>(
    ts: Seq<TargetPlanView>,
    order: Seq<Seq<char>>,
    steps: Seq<BuildStepView>,
    i: int,
)
    requires
        is_topological(ts, order),
        is_schedule::<G, L, M>(ts, order, steps),
        0 <= i < order.len(),
        has_target(ts, order[i]),
    ensures
        dependency_artifacts(steps.subrange(0, i), first_target(ts, order[i]).deps).len() == first_target(ts, order[i]).deps.len(),
        forall|k: int| #![trigger first_target(ts, order[i]).deps[k]] 0 <= k < first_target(ts, order[i]).deps.len() ==> exists|j: int| 0 <= j < i
            && steps[j].target_id == first_target(ts, order[i]).deps[k]
            && dependency_artifacts(steps.subrange(0, i), first_target(ts, order[i]).deps)[k] == #[trigger] steps[j].artifact,
{
    let t = first_target(ts, order[i]);
    let prev = steps.subrange(0, i);
    lemma_schedule_ids::<G, L, M>(ts, order, steps);
    lemma_first_target_member(ts, order[i]);
    let c = choose|c: int| 0 <= c < ts.len() && ts[c] == first_target(ts, order[i]) && ts[c].id == order[i];
    assert forall|k: int| 0 <= k < t.deps.len() implies was_built(prev, #[trigger] t.deps[k]) by {
        assert(edge(ts, order[i], t.deps[k])) by {
            assert(ts[c].deps.contains(t.deps[k]));
        }
        let j = choose|j: int| 0 <= j < i && #[trigger] order[j] == t.deps[k];
        assert(prev[j] == steps[j]);
        assert(prev[j].target_id == t.deps[k]);
    }
    lemma_all_dependencies_found(prev, t.deps);
    assert forall|k: int| #![trigger t.deps[k]] 0 <= k < t.deps.len() implies exists|j: int| 0 <= j < i
        && steps[j].target_id == t.deps[k] && dependency_artifacts(prev, t.deps)[k] == #[trigger] steps[j].artifact by {
        let j = choose|j: int| 0 <= j < prev.len() && prev[j].target_id == t.deps[k]
            && dependency_artifacts(prev, t.deps)[k] == #[trigger] prev[j].artifact;
        assert(prev[j] == steps[j]);
    }
}


/// The output path of a target depends on where it is configured to go and
/// on nothing else: two configurations with the same output directory and
/// target name get the same path, whatever their other fields (project
/// name, sources, flags, link inputs) hold.
pub proof fn lemma_output_path_depends_on_name_and_dir<T: ToolChainTrait>(
    c1: CxonConfigView,
    c2: CxonConfigView,
    target_type: TargetType,
)
    requires
        c1.output_dir == c2.output_dir,
        c1.target_name == c2.target_name,
    ensures
        output_path_spec::<T>(c1, target_type) == output_path_spec::<T>(c2, target_type),
{
}

/// The recorded output is the file the linker writes: the link command for
/// a target names its output path among its arguments, built on the same
/// base `output_dir/target_name` that the link command reports; an
/// executable without extension is written at that base itself.
pub proof fn lemma_output_path_is_linked_file<T: ToolChainTrait>(
    c: CxonConfigView,
    target_type: TargetType,
    objects: Seq<Seq<char>>,
    dirs: Seq<Seq<char>>,
    libs: Seq<Seq<char>>,
)
    ensures
        target_type == TargetType::Executable && T::EXECUTABLE_EXTENSION@.len() == 0
            ==> output_path_spec::<T>(c, target_type) == spec_join(c.output_dir, c.target_name),
        !(target_type == TargetType::Executable && T::EXECUTABLE_EXTENSION@.len() == 0)
            ==> linker_args::<T>(
                objects,
                target_type,
                spec_join(c.output_dir, c.target_name),
                c.extra_link_files,
                dirs,
                libs,
            ).contains(output_path_spec::<T>(c, target_type)),
{
    let base = spec_join(c.output_dir, c.target_name);
    let a = linker_args::<T>(objects, target_type, base, c.extra_link_files, dirs, libs);
    let out = output_path_spec::<T>(c, target_type);
    match target_type {
        TargetType::Executable => {
            if T::EXECUTABLE_EXTENSION@.len() != 0 {
                assert(a[objects.len() + 1int] == out);
            }
        },
        TargetType::StaticLib => {
            let k = crate::toolchain::linker::space_split(T::STATIC_LIB_OUTPUT_FLAG@).len();
            assert(a[k as int] == out);
        },
        TargetType::SharedLib => {
            let k = crate::toolchain::linker::space_split(T::SHARED_LIB_OUTPUT_FLAG@).len();
            assert(a[k as int] == out);
        },
        TargetType::ObjectLib => {
            let k = objects.len() + crate::toolchain::linker::space_split(T::OBJECT_LIB_OUTPUT_FLAG@).len();
            assert(a[k as int] == out);
        },
    }
}

/// A build step's artifact is the one its recorded toolchain family builds:
/// a GNU step's artifact is what `G` makes of the step's configuration, an
/// LLVM step's what `L` makes, an MSVC step's what `M` makes; and the family
/// is the one the target's configuration names.
pub proof fn lemma_step_artifact_matches_toolchain<G: ToolChainTrait, L: ToolChainTrait, M: ToolChainTrait>(
    t: TargetPlanView,
    deps: Seq<ArtifactView>,
)
    requires
        toolchain_of_name(t.config.toolchain) is Some,
    ensures
        ({
            let s = target_step::<G, L, M>(t, deps);
            &&& s.toolchain == toolchain_of_name(t.config.toolchain)->0
            &&& s.toolchain == ToolChain::GNU() ==> s.artifact == artifact_spec::<G>(s.config)
            &&& s.toolchain == ToolChain::LLVM() ==> s.artifact == artifact_spec::<L>(s.config)
            &&& s.toolchain == ToolChain::MSVC() ==> s.artifact == artifact_spec::<M>(s.config)
            &&& s.artifact.target_type == t.config.target_type
            &&& s.artifact.module_id == t.config.project_dir
        }),
{
}

/// Every step of a schedule builds its artifact with the toolchain family it
/// records, for the step's own configuration.
pub proof fn lemma_schedule_artifacts_match_toolchain<G: ToolChainTrait, L: ToolChainTrait, M: ToolChainTrait>(
    ts: Seq<TargetPlanView>,
    order: Seq<Seq<char>>,
    steps: Seq<BuildStepView>,
    i: int,
)
    requires
        is_schedule::<G, L, M>(ts, order, steps),
        0 <= i < steps.len(),
    ensures
        steps[i].toolchain == ToolChain::GNU() ==> steps[i].artifact == artifact_spec::<G>(steps[i].config),
        steps[i].toolchain == ToolChain::LLVM() ==> steps[i].artifact == artifact_spec::<L>(steps[i].config),
        steps[i].toolchain == ToolChain::MSVC() ==> steps[i].artifact == artifact_spec::<M>(steps[i].config),
        steps[i].toolchain == toolchain_of_name(first_target(ts, order[i]).config.toolchain)->0,
{
    reveal(is_schedule);
    reveal(planned_step);
    assert(steps[i] == planned_step::<G, L, M>(ts, steps.subrange(0, i), order[i]));
}

/// Injection changes only the dependency link inputs: the injected
/// configuration equals the original one in every other field (its own
/// libraries, link directories, sources and flags are kept), and its
/// dependency link inputs are exactly the linkable outputs.
pub proof fn lemma_injection_keeps_own_settings(c: CxonConfigView, deps: Seq<ArtifactView>)
    ensures
        injected(c, deps) == (CxonConfigView { extra_link_files: linkable_outputs(deps), ..c }),
        injected(c, deps).libs == c.libs,
        injected(c, deps).link == c.link,
        injected(c, deps).sources == c.sources,
        injected(c, deps).flags == c.flags,
        injected(c, deps).target_name == c.target_name,
        injected(c, deps).output_dir == c.output_dir,
        forall|c2: CxonConfigView| (CxonConfigView { extra_link_files: c.extra_link_files, ..c2 }) == c
            ==> injected(c2, deps) == injected(c, deps),
{
}


/// Each target kind gets its own extension on `output_dir/target_name`:
/// libraries have their extension replaced by the toolchain's static,
/// shared or object library extension, and an executable gets the
/// toolchain's executable extension added, or none when that is empty.
pub proof fn lemma_each_kind_uses_its_extension<T: ToolChainTrait>(c: CxonConfigView)
    ensures
        ({
            let base = spec_join(c.output_dir, c.target_name);
            &&& output_path_spec::<T>(c, TargetType::StaticLib) == spec_with_extension(base, T::STATIC_LIB_EXTENSION@)
            &&& output_path_spec::<T>(c, TargetType::SharedLib) == spec_with_extension(base, T::SHARED_LIB_EXTENSION@)
            &&& output_path_spec::<T>(c, TargetType::ObjectLib) == spec_with_extension(base, T::OBJECT_LIB_EXTENSION@)
            &&& T::EXECUTABLE_EXTENSION@.len() == 0 ==> output_path_spec::<T>(c, TargetType::Executable) == base
            &&& T::EXECUTABLE_EXTENSION@.len() > 0 ==> output_path_spec::<T>(c, TargetType::Executable)
                == spec_with_added_extension(base, T::EXECUTABLE_EXTENSION@)
        }),
{
}

} // verus!
