//! The settings of the toolchain.

use crate::text;
use vstd::prelude::*;

verus! {

/// The names of the tasks that can be inferred, in the order in which they are
/// reported.
pub open spec fn inferable_tasks() -> Seq<Seq<char>> {
    seq!["build"@, "test"@, "run"@, "publish"@]
}

/// The names of the tasks that can be inferred.
pub const INFERABLE_TASKS: [&'static str; 4] = ["build", "test", "run", "publish"];

/// Which tasks to infer from evaluated MSBuild properties: a boolean to
/// enable or disable all of them, or an explicit list of task names
/// (`build`, `test`, `run`, `publish`) to infer only those.
#[derive(Debug, PartialEq, Eq)]
pub enum InferTasksSetting {
    Enabled(bool),
    Only(Vec<String>),
}

impl Default for InferTasksSetting {
    fn default() -> (r: Self)
        ensures
            r == InferTasksSetting::Enabled(true),
    {
        InferTasksSetting::Enabled(true)
    }
}

/// One of `names` is `task`, in any ASCII case.
pub open spec fn names_task(names: Seq<Seq<char>>, task: Seq<char>) -> bool {
    exists|i: int|
        0 <= i < names.len() && text::same_ignoring_ascii_case(#[trigger] names[i], task)
}

impl InferTasksSetting {
    /// The setting selects the task of that name. Names in a list match in any
    /// ASCII case.
    pub open spec fn selects(self, task: Seq<char>) -> bool {
        match self {
            InferTasksSetting::Enabled(enabled) => enabled,
            InferTasksSetting::Only(list) => names_task(text::views(list@), task),
        }
    }

    /// Is a specific task name selected for inference?
    pub fn includes(&self, task: &str) -> (r: bool)
        ensures
            r == self.selects(task@),
    {
        match self {
            InferTasksSetting::Enabled(enabled) => *enabled,
            InferTasksSetting::Only(list) => {
                let mut found = false;
                for i in 0..list.len()
                    invariant
                        found == names_task(text::views(list@).take(i as int), task@),
                {
                    let ghost names = text::views(list@);
                    let here = text::eq_ignore_ascii_case(list[i].as_str(), task);
                    proof {
                        let shorter = names.take(i as int);
                        let longer = names.take(i + 1);
                        assert(longer[i as int] == list@[i as int]@);
                        assert(forall|j: int| 0 <= j < i ==> longer[j] == shorter[j]);
                        if names_task(shorter, task@) {
                            let j = choose|j: int|
                                0 <= j < shorter.len() && text::same_ignoring_ascii_case(
                                    #[trigger] shorter[j],
                                    task@,
                                );
                            assert(text::same_ignoring_ascii_case(longer[j], task@));
                        }
                    }
                    found = found || here;
                }
                assert(text::views(list@).take(list@.len() as int) =~= text::views(list@));
                found
            },
        }
    }

    /// Some inference is enabled.
    pub open spec fn is_enabled(self) -> bool {
        match self {
            InferTasksSetting::Enabled(enabled) => enabled,
            InferTasksSetting::Only(list) => list@.len() > 0,
        }
    }

    /// Is any inference enabled at all?
    pub fn any_enabled(&self) -> (r: bool)
        ensures
            r == self.is_enabled(),
    {
        match self {
            InferTasksSetting::Enabled(enabled) => *enabled,
            InferTasksSetting::Only(list) => list.len() > 0,
        }
    }
}

/// Configures and enables the .NET toolchain.
#[derive(Debug, PartialEq, Eq)]
pub struct DotnetToolchainConfig {
    /// Infer moon project dependencies from MSBuild `ProjectReference` items
    /// (runs a real MSBuild evaluation per project).
    pub infer_dependencies: bool,
    /// Infer `build`, `test`, `run`, and `publish` tasks from evaluated
    /// MSBuild properties (OutputType, IsTestProject, output paths).
    /// `true`/`false` toggles all of them; a list of task names infers
    /// only those. Task ids already defined in inherited task files
    /// (`.moon/tasks*`) or a project's `moon.yml` are never overridden.
    pub infer_tasks: InferTasksSetting,
    /// Additional arguments appended to `dotnet restore` during
    /// dependency installation.
    pub restore_args: Vec<String>,
    /// Explicit DOTNET_ROOT to inject into task environments. When unset,
    /// falls back to an existing DOTNET_ROOT env var, then `~/.dotnet`
    /// where it holds the `dotnet` executable.
    pub dotnet_root: Option<String>,
}

impl Default for DotnetToolchainConfig {
    fn default() -> (r: Self)
        ensures
            r.infer_dependencies,
            r.infer_tasks == InferTasksSetting::Enabled(true),
            r.restore_args@ == Seq::<String>::empty(),
            r.dotnet_root is None,
    {
        DotnetToolchainConfig {
            infer_dependencies: true,
            infer_tasks: InferTasksSetting::Enabled(true),
            restore_args: Vec::new(),
            dotnet_root: None,
        }
    }
}

/// A setting that enables nothing selects no task.
pub proof fn law_disabled_setting_selects_nothing(setting: InferTasksSetting, task: Seq<char>)
    requires
        !setting.is_enabled(),
    ensures
        !setting.selects(task),
{
}

/// Switched on as a whole, a setting selects every task; a list selects what it names, in
/// any ASCII case, and nothing else.
pub proof fn law_settings_select_what_they_name(setting: InferTasksSetting, task: Seq<char>)
    ensures
        match setting {
            InferTasksSetting::Enabled(enabled) => setting.selects(task) == enabled
                && setting.is_enabled() == enabled,
            InferTasksSetting::Only(list) => {
                &&& setting.selects(task) <==> exists|i: int|
                    0 <= i < list@.len() && text::same_ignoring_ascii_case(
                        (#[trigger] list@[i])@,
                        task,
                    )
                &&& setting.is_enabled() <==> list@.len() > 0
            },
        },
{
    match setting {
        InferTasksSetting::Enabled(_) => {},
        InferTasksSetting::Only(list) => {
            let names = text::views(list@);
            if setting.selects(task) {
                let i = choose|i: int|
                    0 <= i < names.len() && text::same_ignoring_ascii_case(
                        #[trigger] names[i],
                        task,
                    );
                assert(text::same_ignoring_ascii_case(list@[i]@, task));
            }
            if exists|i: int|
                0 <= i < list@.len() && text::same_ignoring_ascii_case(
                    (#[trigger] list@[i])@,
                    task,
                ) {
                let i = choose|i: int|
                    0 <= i < list@.len() && text::same_ignoring_ascii_case(
                        (#[trigger] list@[i])@,
                        task,
                    );
                assert(text::same_ignoring_ascii_case(names[i], task));
            }
        },
    }
}

/// Four tasks can be inferred, reported in this order.
pub proof fn law_four_tasks_can_be_inferred()
    ensures
        inferable_tasks().len() == 4,
        inferable_tasks()[0] == "build"@,
        inferable_tasks()[1] == "test"@,
        inferable_tasks()[2] == "run"@,
        inferable_tasks()[3] == "publish"@,
{
}

} // verus!
