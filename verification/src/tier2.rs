//! Dependency roots, dependency and tool restores, task hashing and pruning.

use crate::config::DotnetToolchainConfig;
use crate::discovery;
use crate::discovery::DirListing;
use crate::discovery::DirPath;
use crate::discovery::DirTree;
use crate::discovery::PathView;
use crate::global_json;
use crate::json;
use crate::json::Json;
use crate::msbuild::EvalView;
use crate::msbuild::MsbuildEvaluation;
use crate::project_graph;
use crate::project_graph::GraphProject;
use crate::project_graph::ProjectFile;
use crate::project_graph::WorkspaceView;
use crate::str_map::StrMap;
use crate::text;
use vstd::prelude::*;

verus! {

// ---------------------------------------------------------------------------
// The dependencies root
// ---------------------------------------------------------------------------

/// A directory that holds a solution file.
pub open spec fn has_solution(level: DirListing) -> bool {
    discovery::holds_solution(level.entries@)
}

/// A directory that holds a lock file.
pub open spec fn has_lock_files(level: DirListing) -> bool {
    discovery::lock_files_in(level.entries@).len() > 0
}

/// A directory that holds a project file.
pub open spec fn has_project_files(level: DirListing) -> bool {
    discovery::project_files_in(level.entries@).len() > 0
}

/// `found` is the first of the directories that `wanted` holds of, if there is one.
pub open spec fn is_nearest(
    levels: Seq<DirListing>,
    wanted: spec_fn(DirListing) -> bool,
    found: Option<int>,
) -> bool {
    match found {
        Some(i) => 0 <= i < levels.len() && wanted(levels[i]) && forall|j: int|
            0 <= j < i ==> !wanted(#[trigger] levels[j]),
        None => forall|j: int| 0 <= j < levels.len() ==> !wanted(#[trigger] levels[j]),
    }
}

/// None of the directories is one that `wanted` holds of.
pub open spec fn is_nowhere(levels: Seq<DirListing>, wanted: spec_fn(DirListing) -> bool) -> bool {
    is_nearest(levels, wanted, None)
}

/// `found` is the dependencies root: the nearest directory with a solution file, or
/// else with a lock file, or else with a project file.
pub open spec fn is_dependencies_root(levels: Seq<DirListing>, found: Option<int>) -> bool {
    let solution = |level: DirListing| has_solution(level);
    let lock = |level: DirListing| has_lock_files(level);
    let project = |level: DirListing| has_project_files(level);
    if !is_nowhere(levels, solution) {
        is_nearest(levels, solution, found)
    } else if !is_nowhere(levels, lock) {
        is_nearest(levels, lock, found)
    } else {
        is_nearest(levels, project, found)
    }
}

/// The position of the dependencies root among the directories from the starting
/// directory up to the workspace root, nearest first. A solution file wins over a lock
/// file, and that over a project file; solution files are markers only and are never
/// read.
pub fn locate_dependencies_root(levels: &[DirListing]) -> (r: Option<usize>)
    ensures
        is_dependencies_root(
            levels@,
            match r {
                Some(i) => Some(i as int),
                None => None,
            },
        ),
{
    for i in 0..levels.len()
        invariant
            forall|j: int| 0 <= j < i ==> !has_solution(#[trigger] levels@[j]),
    {
        if discovery::has_solution_file(&levels[i].entries) {
            assert(has_solution(levels@[i as int]));
            return Some(i);
        }
    }
    assert(is_nowhere(levels@, |level: DirListing| has_solution(level)));
    for i in 0..levels.len()
        invariant
            is_nowhere(levels@, |level: DirListing| has_solution(level)),
            forall|j: int| 0 <= j < i ==> !has_lock_files(#[trigger] levels@[j]),
    {
        let files = discovery::find_lock_files(&levels[i].entries);
        assert(files@.len() == text::views(files@).len());
        if files.len() > 0 {
            assert(has_lock_files(levels@[i as int]));
            return Some(i);
        }
    }
    assert(is_nowhere(levels@, |level: DirListing| has_lock_files(level)));
    for i in 0..levels.len()
        invariant
            is_nowhere(levels@, |level: DirListing| has_solution(level)),
            is_nowhere(levels@, |level: DirListing| has_lock_files(level)),
            forall|j: int| 0 <= j < i ==> !has_project_files(#[trigger] levels@[j]),
    {
        let files = discovery::find_project_files(&levels[i].entries);
        assert(files@.len() == text::views(files@).len());
        if files.len() > 0 {
            return Some(i);
        }
    }
    None
}

/// There is one dependencies root at most, and there is one exactly where some
/// directory holds a solution, a lock or a project file.
pub proof fn law_dependencies_root_is_unique(
    levels: Seq<DirListing>,
    a: Option<int>,
    b: Option<int>,
)
    requires
        is_dependencies_root(levels, a),
        is_dependencies_root(levels, b),
    ensures
        a == b,
        a is Some <==> exists|i: int|
            0 <= i < levels.len() && (has_solution(#[trigger] levels[i]) || has_lock_files(
                levels[i],
            ) || has_project_files(levels[i])),
{
    if a is Some && b is Some {
        let x = a->Some_0;
        let y = b->Some_0;
        if x < y {
            assert(!has_solution(levels[x]) || has_solution(levels[y]));
        }
    }
    if a is Some {
        assert(has_solution(levels[a->Some_0]) || has_lock_files(levels[a->Some_0])
            || has_project_files(levels[a->Some_0]));
    }
}

// ---------------------------------------------------------------------------
// Installing dependencies
// ---------------------------------------------------------------------------

/// How many directories below the dependencies root a lock file is looked for.
pub const LOCK_FILE_DEPTH: u8 = 5;

/// A command to run.
#[derive(Debug, PartialEq, Eq)]
pub struct CommandLine {
    pub command: String,
    pub args: Vec<String>,
}

/// The arguments of a restore.
pub open spec fn restore_arguments(locked: bool, extra: Seq<Seq<char>>) -> Seq<Seq<char>> {
    (if locked {
        seq!["restore"@, "--locked-mode"@]
    } else {
        seq!["restore"@]
    }) + extra
}

/// The command that installs dependencies. The mere presence of a lock file opts a
/// project into lock-file restore; `--locked-mode` additionally fails restore (NU1004)
/// when declared dependencies drifted from the lock file. NuGet has no dedupe concept.
pub fn install_dependencies(config: &DotnetToolchainConfig, root: &DirTree) -> (r: CommandLine)
    ensures
        r.command@ == "dotnet"@,
        text::views(r.args@) == restore_arguments(
            discovery::holds_lock_within(*root, LOCK_FILE_DEPTH as nat),
            text::views(config.restore_args@),
        ),
{
    let mut args: Vec<String> = Vec::new();
    text::push_owned(&mut args, "restore");
    let locked = discovery::contains_lockfile(root, LOCK_FILE_DEPTH);
    if locked {
        text::push_owned(&mut args, "--locked-mode");
    }
    text::extend(&mut args, &config.restore_args);
    assert(text::views(args@) =~= restore_arguments(locked, text::views(config.restore_args@)));
    CommandLine { command: text::owned("dotnet"), args }
}

// ---------------------------------------------------------------------------
// Local tools
// ---------------------------------------------------------------------------

/// A directory that holds a manifest of local tools.
pub open spec fn has_tool_manifest(level: DirListing) -> bool {
    global_json::holds_file(level.entries@, "dotnet-tools.json"@)
}

/// A restore of local tools.
#[derive(Debug, PartialEq, Eq)]
pub struct ToolRestore {
    pub command: CommandLine,
    /// How many directories above the dependencies root the restore runs.
    pub steps: usize,
    /// The manifest, whose content the restore is keyed on.
    pub manifest: DirPath,
}

/// The restore of the local tools that a dependencies root can use: those of the
/// nearest manifest from there up to the workspace root, as the dotnet CLI resolves it.
/// `levels` are the listings of the `.config` directories on that way, nearest first.
pub fn setup_environment(levels: &[DirListing]) -> (r: Option<ToolRestore>)
    ensures
        is_nearest(
            levels@,
            |level: DirListing| has_tool_manifest(level),
            match r {
                Some(restore) => Some(restore.steps as int),
                None => None,
            },
        ),
        r is Some ==> {
            &&& r->Some_0.command.command@ == "dotnet"@
            &&& text::views(r->Some_0.command.args@) == seq!["tool"@, "restore"@]
            &&& r->Some_0.manifest@ == levels@[r->Some_0.steps as int].path@.join(
                "dotnet-tools.json"@,
            )
        },
{
    for i in 0..levels.len()
        invariant
            forall|j: int| 0 <= j < i ==> !has_tool_manifest(#[trigger] levels@[j]),
    {
        if global_json::has_file(&levels[i].entries, "dotnet-tools.json") {
            let mut args: Vec<String> = Vec::new();
            text::push_owned(&mut args, "tool");
            text::push_owned(&mut args, "restore");
            assert(text::views(args@) =~= seq!["tool"@, "restore"@]);
            return Some(
                ToolRestore {
                    command: CommandLine { command: text::owned("dotnet"), args },
                    steps: i,
                    manifest: levels[i].path.join("dotnet-tools.json"),
                },
            );
        }
    }
    None
}

// ---------------------------------------------------------------------------
// Hashing tasks
// ---------------------------------------------------------------------------

/// What is hashed where lock files are there: their contents and those of the config
/// files, by path.
pub open spec fn locked_document(
    configs: Map<Seq<char>, Seq<char>>,
    lockfiles: Map<Seq<char>, Seq<char>>,
) -> Json {
    Json::Object(
        Map::empty().insert("configs"@, json::object_of(configs)).insert(
            "lockfiles"@,
            json::object_of(lockfiles),
        ),
    )
}

/// What is hashed where no lock file is there: the evaluated package set and the
/// contents of the config files, by path.
pub open spec fn evaluated_document(
    configs: Map<Seq<char>, Seq<char>>,
    packages: Map<Seq<char>, Seq<char>>,
) -> Json {
    Json::Object(
        Map::empty().insert("configs"@, json::object_of(configs)).insert(
            "packages"@,
            json::object_of(packages),
        ),
    )
}

/// The config files whose contents are hashed: those of the project directory and of
/// every directory up to the workspace root. Conditions and imports can make any of
/// them affect the resolved package set, and they change build behavior even where a
/// lock file pins the package set. Effects of custom `<Import>`s outside these
/// conventions are only captured via the evaluated package set.
pub fn hashed_config_files(levels: &[DirListing]) -> (r: Vec<DirPath>)
    ensures
        discovery::path_views(r@) == crate::eval_cache::config_paths(levels@),
{
    crate::eval_cache::config_sources(levels)
}

/// The JSON object with two members.
fn pair_value(
    first: &str,
    a: serde_json::Value,
    second: &str,
    b: serde_json::Value,
) -> (r: serde_json::Value)
    ensures
        json::json_of(r) == Json::Object(
            Map::empty().insert(first@, json::json_of(a)).insert(second@, json::json_of(b)),
        ),
{
    let mut entries: Vec<(String, serde_json::Value)> = Vec::new();
    entries.push((text::owned(first), a));
    entries.push((text::owned(second), b));
    proof {
        reveal_with_fuel(json::members_of, 3);
        assert(entries@.drop_last().drop_last() =~= Seq::empty());
        assert(entries@.drop_last().last() == entries@[0]);
        assert(json::members_of(entries@) =~= Map::empty().insert(first@, json::json_of(a)).insert(
            second@,
            json::json_of(b),
        ));
    }
    json::object_value(entries)
}

/// What is hashed for a task of a project.
///
/// Where lock files are there, their content already pins the entire resolved package
/// set (including content hashes): they are hashed raw, and the costly MSBuild
/// evaluation is skipped. Otherwise the *evaluated* PackageReference set is hashed
/// instead, which `packages` holds. All three are by path or by name.
pub fn hash_task_contents(
    configs: &StrMap<String>,
    lockfiles: &StrMap<String>,
    packages: &StrMap<String>,
) -> (r: serde_json::Value)
    ensures
        json::json_of(r) == (if lockfiles@ == Map::<Seq<char>, Seq<char>>::empty() {
            evaluated_document(configs@, packages@)
        } else {
            locked_document(configs@, lockfiles@)
        }),
{
    if lockfiles.is_empty() {
        pair_value(
            "configs",
            json::strings_value(configs),
            "packages",
            json::strings_value(packages),
        )
    } else {
        pair_value(
            "configs",
            json::strings_value(configs),
            "lockfiles",
            json::strings_value(lockfiles),
        )
    }
}

proof fn lemma_member_names_differ()
    ensures
        "configs"@ != "lockfiles"@,
        "configs"@ != "packages"@,
        "lockfiles"@ != "packages"@,
{
    reveal_strlit("configs");
    reveal_strlit("lockfiles");
    reveal_strlit("packages");
    assert("configs"@.len() == 7 && "lockfiles"@.len() == 9 && "packages"@.len() == 8);
}

proof fn lemma_object_of_injective(
    a: Map<Seq<char>, Seq<char>>,
    b: Map<Seq<char>, Seq<char>>,
)
    requires
        json::object_of(a) == json::object_of(b),
    ensures
        a == b,
{
    json::lemma_strings_of_object(a);
    json::lemma_strings_of_object(b);
}

/// A change of any config file, any lock file or any evaluated package changes what is
/// hashed, and so does adding the first lock file.
pub proof fn law_hash_tells_inputs_apart(
    configs: Map<Seq<char>, Seq<char>>,
    lockfiles: Map<Seq<char>, Seq<char>>,
    packages: Map<Seq<char>, Seq<char>>,
    other_configs: Map<Seq<char>, Seq<char>>,
    others: Map<Seq<char>, Seq<char>>,
)
    ensures
        locked_document(configs, lockfiles) == locked_document(other_configs, others) <==> configs
            == other_configs && lockfiles == others,
        evaluated_document(configs, packages) == evaluated_document(other_configs, others)
            <==> configs == other_configs && packages == others,
        locked_document(configs, lockfiles) != evaluated_document(other_configs, others),
{
    lemma_member_names_differ();
    let locked = locked_document(configs, lockfiles)->Object_0;
    let other_locked = locked_document(other_configs, others)->Object_0;
    let evaluated = evaluated_document(configs, packages)->Object_0;
    let other_evaluated = evaluated_document(other_configs, others)->Object_0;
    if locked == other_locked {
        assert(locked["configs"@] == other_locked["configs"@]);
        assert(locked["lockfiles"@] == other_locked["lockfiles"@]);
        lemma_object_of_injective(configs, other_configs);
        lemma_object_of_injective(lockfiles, others);
    }
    if evaluated == other_evaluated {
        assert(evaluated["configs"@] == other_evaluated["configs"@]);
        assert(evaluated["packages"@] == other_evaluated["packages"@]);
        lemma_object_of_injective(configs, other_configs);
        lemma_object_of_injective(packages, others);
    }
    assert(locked.contains_key("lockfiles"@));
    assert(!other_evaluated.contains_key("lockfiles"@));
}

// ---------------------------------------------------------------------------
// The package set of a project
// ---------------------------------------------------------------------------

/// The text under which a package set is remembered.
pub fn write_package_set(packages: &StrMap<String>) -> (r: Result<String, serde_json::Error>)
    ensures
        r is Ok,
        json::strings_in(r->Ok_0@) == Some(packages@),
{
    let document = json::strings_value(packages);
    proof {
        json::lemma_strings_of_object(packages@);
    }
    json::render(&document)
}

/// Reads a remembered package set.
pub fn read_package_set(content: &str) -> (r: Result<StrMap<String>, serde_json::Error>)
    ensures
        match r {
            Ok(packages) => json::strings_in(content@) == Some(packages@),
            Err(_) => json::strings_in(content@) is None,
        },
{
    json::read_string_map(content)
}

/// Where the package set of a project comes from.
#[derive(Debug)]
pub enum PackageLookup {
    /// It was remembered from an earlier task of the same project.
    Remembered(StrMap<String>),
    /// The graph evaluation left it on disk. It is to be remembered.
    Cached(StrMap<String>),
    /// The project has to be evaluated on its own.
    Evaluate,
}

/// Looks up the package set of a project, on three levels of reuse, because it is
/// needed once per task and a cold MSBuild evaluation is costly: what was remembered
/// for repeated tasks of the same project, then the on-disk cache that the batched
/// graph evaluation primed, then evaluating this project alone.
pub fn lookup_packages(remembered: Option<&str>, cached: Option<StrMap<String>>) -> (r: Result<
    PackageLookup,
    serde_json::Error,
>)
    ensures
        match remembered {
            Some(content) => match r {
                Ok(PackageLookup::Remembered(packages)) => json::strings_in(content@) == Some(
                    packages@,
                ),
                Ok(_) => false,
                Err(_) => json::strings_in(content@) is None,
            },
            None => match cached {
                Some(packages) => r is Ok && r->Ok_0 is Cached && r->Ok_0->Cached_0 == packages,
                None => r is Ok && r->Ok_0 is Evaluate,
            },
        },
{
    match remembered {
        Some(content) => match read_package_set(content) {
            Ok(packages) => Ok(PackageLookup::Remembered(packages)),
            Err(error) => Err(error),
        },
        None => match cached {
            Some(packages) => Ok(PackageLookup::Cached(packages)),
            None => Ok(PackageLookup::Evaluate),
        },
    }
}

/// The packages of the files that were evaluated; of two files the later one counts.
pub open spec fn collected(evaluations: Seq<Option<EvalView>>) -> Map<Seq<char>, Seq<char>>
    decreases evaluations.len(),
{
    if evaluations.len() == 0 {
        Map::empty()
    } else {
        match evaluations.last() {
            Some(evaluation) => collected(evaluations.drop_last()).union_prefer_right(
                evaluation.package_references(),
            ),
            None => collected(evaluations.drop_last()),
        }
    }
}

/// The views of a list of evaluations.
pub open spec fn evaluation_views(
    evaluations: Seq<Option<MsbuildEvaluation>>,
) -> Seq<Option<EvalView>> {
    evaluations.map_values(
        |evaluation: Option<MsbuildEvaluation>|
            match evaluation {
                Some(evaluation) => Some(evaluation@),
                None => None,
            },
    )
}

/// The package set of a project that was evaluated on its own.
#[derive(Debug, PartialEq, Eq)]
pub struct EvaluatedPackages {
    pub packages: StrMap<String>,
    /// Whether the set is complete. Only a complete one may be cached on disk: a
    /// partial one would be served under a digest that keeps validating, and since this
    /// set is the only hash signal for a workspace without lock files, package changes
    /// would stop invalidating task hashes.
    pub complete: bool,
}

/// The package set of a project from the evaluations of its project files, where `None`
/// stands for one that could not be evaluated. Without a `dotnet` executable nothing
/// was, and the set is empty and not complete.
pub fn evaluated_packages(
    dotnet_found: bool,
    evaluations: &[Option<MsbuildEvaluation>],
) -> (r: EvaluatedPackages)
    ensures
        r.packages@ == (if dotnet_found {
            collected(evaluation_views(evaluations@))
        } else {
            Map::<Seq<char>, Seq<char>>::empty()
        }),
        r.complete == (dotnet_found && forall|i: int|
            0 <= i < evaluations@.len() ==> (#[trigger] evaluations@[i]) is Some),
{
    let mut packages: StrMap<String> = StrMap::new();
    if !dotnet_found {
        return EvaluatedPackages { packages, complete: false };
    }
    let ghost all = evaluation_views(evaluations@);
    let mut complete = true;
    assert(all.take(0) =~= Seq::empty());
    for i in 0..evaluations.len()
        invariant
            all == evaluation_views(evaluations@),
            packages@ == collected(all.take(i as int)),
            complete == forall|j: int| 0 <= j < i ==> (#[trigger] evaluations@[j]) is Some,
    {
        assert(all.take(i + 1).drop_last() =~= all.take(i as int));
        match &evaluations[i] {
            Some(evaluation) => {
                assert(all[i as int] == Some(evaluation@));
                packages.extend(&evaluation.package_references());
            },
            None => {
                assert(all[i as int] is None);
                assert(evaluations@[i as int] is None);
                complete = false;
            },
        }
    }
    assert(all.take(all.len() as int) =~= all);
    EvaluatedPackages { packages, complete }
}

/// The evaluations of project files, where they succeeded.
pub open spec fn file_evaluations(files: Seq<ProjectFile>) -> Seq<Option<EvalView>> {
    files.map_values(
        |file: ProjectFile|
            if file.real_path is Some && file.evaluation is Some {
                Some(file.evaluation->Some_0@)
            } else {
                None
            },
    )
}

proof fn lemma_packages_agree(
    workspace: WorkspaceView,
    project: GraphProject,
    files: Seq<ProjectFile>,
)
    ensures
        project_graph::with_evaluated_files(workspace, project, files).packages == collected(
            file_evaluations(files),
        ),
    decreases files.len(),
{
    if files.len() > 0 {
        lemma_packages_agree(workspace, project, files.drop_last());
        assert(file_evaluations(files).drop_last() =~= file_evaluations(files.drop_last()));
    } else {
        assert(file_evaluations(files) =~= Seq::empty());
    }
}

/// Task hashing sees the same packages whether it reads what the graph evaluation left
/// or evaluates the project files itself.
pub proof fn law_cached_packages_are_the_evaluated_ones(
    workspace: WorkspaceView,
    project: GraphProject,
)
    ensures
        project_graph::extended_project(workspace, project).packages == collected(
            file_evaluations(project.files@),
        ),
{
    lemma_packages_agree(workspace, project, project.files@);
}

// ---------------------------------------------------------------------------
// Pruning
// ---------------------------------------------------------------------------

/// The build output directories of the given directories.
pub open spec fn output_dirs(roots: Seq<PathView>) -> Seq<PathView>
    decreases roots.len(),
{
    if roots.len() == 0 {
        Seq::empty()
    } else {
        output_dirs(roots.drop_last()).push(roots.last().join("bin"@)).push(
            roots.last().join("obj"@),
        )
    }
}

/// The directories to remove: `bin` and `obj` in the dependencies root and in each
/// focused project. `roots` are those directories, the dependencies root first. NuGet's
/// user-level cache is deliberately not touched.
pub fn prune_docker(roots: &[DirPath]) -> (r: Vec<DirPath>)
    ensures
        discovery::path_views(r@) == output_dirs(discovery::path_views(roots@)),
{
    let ghost all = discovery::path_views(roots@);
    let mut r: Vec<DirPath> = Vec::new();
    assert(all.take(0) =~= Seq::empty());
    assert(discovery::path_views(r@) =~= Seq::empty());
    for i in 0..roots.len()
        invariant
            all == discovery::path_views(roots@),
            discovery::path_views(r@) == output_dirs(all.take(i as int)),
    {
        assert(all.take(i + 1).drop_last() =~= all.take(i as int));
        assert(all[i as int] == roots@[i as int]@);
        let ghost was = r@;
        let bin = roots[i].join("bin");
        let obj = roots[i].join("obj");
        r.push(bin);
        r.push(obj);
        assert(discovery::path_views(r@) =~= discovery::path_views(was).push(bin@).push(obj@));
    }
    assert(all.take(all.len() as int) =~= all);
    r
}

/// Pruning removes nothing but directories called `bin` or `obj` directly inside one of
/// the given directories.
pub proof fn law_pruning_removes_build_output_only(roots: Seq<PathView>, i: int)
    requires
        0 <= i < output_dirs(roots).len(),
    ensures
        exists|j: int|
            0 <= j < roots.len() && (output_dirs(roots)[i] == (#[trigger] roots[j]).join("bin"@)
                || output_dirs(roots)[i] == roots[j].join("obj"@)),
    decreases roots.len(),
{
    let fewer = roots.drop_last();
    let some = output_dirs(fewer);
    if i < some.len() {
        law_pruning_removes_build_output_only(fewer, i);
        let j = choose|j: int|
            0 <= j < fewer.len() && (some[i] == (#[trigger] fewer[j]).join("bin"@) || some[i]
                == fewer[j].join("obj"@));
        assert(roots[j] == fewer[j]);
    } else {
        assert(roots[roots.len() - 1] == roots.last());
    }
}

// ---------------------------------------------------------------------------
// What tier 2 is for
// ---------------------------------------------------------------------------

proof fn lemma_has_files(level: DirListing)
    ensures
        has_lock_files(level) <==> exists|name: Seq<char>| #[trigger]
            discovery::is_file_of(level.entries@, name) && discovery::is_called_a_lock(name),
        has_project_files(level) <==> exists|name: Seq<char>| #[trigger]
            discovery::is_entry_of(level.entries@, name) && (".csproj"@.is_suffix_of(
                text::ascii_lower(name),
            ) || ".fsproj"@.is_suffix_of(text::ascii_lower(name)) || ".vbproj"@.is_suffix_of(
                text::ascii_lower(name),
            )),
{
    let entries = level.entries@;
    let locks = discovery::lock_files_in(entries);
    let projects = discovery::project_files_in(entries);
    if locks.len() > 0 {
        assert(locks.contains(locks[0]));
        discovery::law_lock_files_are_told_by_their_names(entries, locks[0]);
    }
    if exists|name: Seq<char>| #[trigger]
        discovery::is_file_of(entries, name) && discovery::is_called_a_lock(name) {
        let name = choose|name: Seq<char>| #[trigger]
            discovery::is_file_of(entries, name) && discovery::is_called_a_lock(name);
        discovery::law_lock_files_are_told_by_their_names(entries, name);
        assert(locks.contains(name));
    }
    if projects.len() > 0 {
        assert(projects.contains(projects[0]));
        discovery::law_project_files_are_told_by_their_ends(entries, projects[0]);
    }
    if exists|name: Seq<char>| #[trigger]
        discovery::is_entry_of(entries, name) && (".csproj"@.is_suffix_of(
            text::ascii_lower(name),
        ) || ".fsproj"@.is_suffix_of(text::ascii_lower(name)) || ".vbproj"@.is_suffix_of(
            text::ascii_lower(name),
        )) {
        let name = choose|name: Seq<char>| #[trigger]
            discovery::is_entry_of(entries, name) && (".csproj"@.is_suffix_of(
                text::ascii_lower(name),
            ) || ".fsproj"@.is_suffix_of(text::ascii_lower(name)) || ".vbproj"@.is_suffix_of(
                text::ascii_lower(name),
            ));
        discovery::law_project_files_are_told_by_their_ends(entries, name);
        assert(projects.contains(name));
    }
}

/// What marks a directory as a dependencies root: a solution, a lock or a project file.
pub open spec fn rank(level: DirListing) -> int {
    if exists|name: Seq<char>| #[trigger]
        discovery::is_entry_of(level.entries@, name) && (".sln"@.is_suffix_of(
            text::ascii_lower(name),
        ) || ".slnx"@.is_suffix_of(text::ascii_lower(name))) {
        0
    } else if exists|name: Seq<char>| #[trigger]
        discovery::is_file_of(level.entries@, name) && discovery::is_called_a_lock(name) {
        1
    } else if exists|name: Seq<char>| #[trigger]
        discovery::is_entry_of(level.entries@, name) && (".csproj"@.is_suffix_of(
            text::ascii_lower(name),
        ) || ".fsproj"@.is_suffix_of(text::ascii_lower(name)) || ".vbproj"@.is_suffix_of(
            text::ascii_lower(name),
        )) {
        2
    } else {
        3
    }
}

/// The dependencies root is the nearest of the directories that are marked best: by a
/// solution before a lock file, and by that before a project file.
pub proof fn law_the_best_mark_makes_the_root(levels: Seq<DirListing>, found: Option<int>)
    requires
        is_dependencies_root(levels, found),
    ensures
        match found {
            Some(i) => {
                &&& 0 <= i < levels.len()
                &&& rank(levels[i]) < 3
                &&& forall|j: int|
                    0 <= j < levels.len() ==> rank(#[trigger] levels[j]) >= rank(levels[i])
                &&& forall|j: int| 0 <= j < i ==> rank(#[trigger] levels[j]) > rank(levels[i])
            },
            None => forall|j: int| 0 <= j < levels.len() ==> rank(#[trigger] levels[j]) == 3,
        },
{
    let solution = |level: DirListing| has_solution(level);
    let lock = |level: DirListing| has_lock_files(level);
    let project = |level: DirListing| has_project_files(level);
    assert forall|j: int| 0 <= j < levels.len() implies rank(#[trigger] levels[j]) == (
    if has_solution(levels[j]) {
        0int
    } else if has_lock_files(levels[j]) {
        1
    } else if has_project_files(levels[j]) {
        2
    } else {
        3
    }) by {
        discovery::law_solutions_are_told_by_their_ends(levels[j].entries@);
        lemma_has_files(levels[j]);
    }
    if is_nowhere(levels, solution) {
        assert forall|j: int| 0 <= j < levels.len() implies !has_solution(#[trigger] levels[j]) by {
            assert(!solution(levels[j]));
        }
        if is_nowhere(levels, lock) {
            assert forall|j: int| 0 <= j < levels.len() implies !has_lock_files(
                #[trigger] levels[j],
            ) by {
                assert(!lock(levels[j]));
            }
            assert forall|j: int| 0 <= j < levels.len() implies project(#[trigger] levels[j])
                == has_project_files(levels[j]) by {}
        } else {
            assert forall|j: int| 0 <= j < levels.len() implies lock(#[trigger] levels[j])
                == has_lock_files(levels[j]) by {}
        }
    } else {
        assert forall|j: int| 0 <= j < levels.len() implies solution(#[trigger] levels[j])
            == has_solution(levels[j]) by {}
    }
}

/// A restore is locked exactly where a lock file lies within five directories of the
/// root, none of which belongs to a build or another tool, and ends with the arguments
/// that are configured.
pub proof fn law_restores_are_locked_by_lock_files(root: DirTree, extra: Seq<Seq<char>>)
    ensures
        ({
            let args = restore_arguments(
                discovery::holds_lock_within(root, LOCK_FILE_DEPTH as nat),
                extra,
            );
            let locked = exists|way: Seq<int>, to: DirTree|
                way.len() <= 5 && #[trigger] discovery::leads_to(root, way, to)
                    && discovery::has_lock(to);
            &&& args[0] == "restore"@
            &&& locked <==> args.len() == extra.len() + 2
            &&& locked ==> args[1] == "--locked-mode"@ && args.skip(2) == extra
            &&& !locked ==> args.skip(1) == extra
        }),
{
    discovery::law_search_follows_every_way(root, 5);
    let locked = discovery::holds_lock_within(root, LOCK_FILE_DEPTH as nat);
    let args = restore_arguments(locked, extra);
    if locked {
        assert(args.skip(2) =~= extra);
    } else {
        assert(args.skip(1) =~= extra);
    }
}

/// What is hashed holds every config file with its content, and every lock file or, where
/// there is none, every evaluated package.
pub proof fn law_everything_is_hashed(
    configs: Map<Seq<char>, Seq<char>>,
    others: Map<Seq<char>, Seq<char>>,
    name: Seq<char>,
)
    ensures
        ({
            let locked = locked_document(configs, others);
            let evaluated = evaluated_document(configs, others);
            &&& locked is Object && evaluated is Object
            &&& json::strings_of(locked->Object_0["configs"@]) == Some(configs)
            &&& json::strings_of(locked->Object_0["lockfiles"@]) == Some(others)
            &&& json::strings_of(evaluated->Object_0["configs"@]) == Some(configs)
            &&& json::strings_of(evaluated->Object_0["packages"@]) == Some(others)
            &&& locked->Object_0.contains_key(name) <==> name == "configs"@ || name
                == "lockfiles"@
            &&& evaluated->Object_0.contains_key(name) <==> name == "configs"@ || name
                == "packages"@
        }),
{
    lemma_member_names_differ();
    json::lemma_strings_of_object(configs);
    json::lemma_strings_of_object(others);
}

/// The last of the evaluations that references the package.
pub open spec fn is_last_collected(
    evaluations: Seq<Option<EvalView>>,
    i: int,
    name: Seq<char>,
) -> bool {
    &&& 0 <= i < evaluations.len()
    &&& evaluations[i] is Some
    &&& evaluations[i]->Some_0.package_references().contains_key(name)
    &&& forall|j: int|
        i < j < evaluations.len() ==> !((#[trigger] evaluations[j]) is Some
            && evaluations[j]->Some_0.package_references().contains_key(name))
}

/// A collected package set holds every package that one of the evaluations references, and
/// no other, with the version of the last such evaluation.
pub proof fn law_every_package_is_collected(
    evaluations: Seq<Option<EvalView>>,
    name: Seq<char>,
)
    ensures
        collected(evaluations).contains_key(name) <==> exists|i: int|
            0 <= i < evaluations.len() && (#[trigger] evaluations[i]) is Some
                && evaluations[i]->Some_0.package_references().contains_key(name),
        forall|i: int| #[trigger]
            is_last_collected(evaluations, i, name) ==> collected(evaluations)[name]
                == evaluations[i]->Some_0.package_references()[name],
    decreases evaluations.len(),
{
    if evaluations.len() > 0 {
        let fewer = evaluations.drop_last();
        let last = evaluations.len() - 1;
        law_every_package_is_collected(fewer, name);
        assert forall|i: int| 0 <= i < fewer.len() implies #[trigger] fewer[i]
            == evaluations[i] by {}
        if collected(fewer).contains_key(name) {
            let i = choose|i: int|
                0 <= i < fewer.len() && (#[trigger] fewer[i]) is Some
                    && fewer[i]->Some_0.package_references().contains_key(name);
            assert(evaluations[i] is Some);
        }
        if exists|i: int|
            0 <= i < evaluations.len() && (#[trigger] evaluations[i]) is Some
                && evaluations[i]->Some_0.package_references().contains_key(name) {
            let i = choose|i: int|
                0 <= i < evaluations.len() && (#[trigger] evaluations[i]) is Some
                    && evaluations[i]->Some_0.package_references().contains_key(name);
            if i < last {
                assert(fewer[i] is Some);
            }
        }
        assert forall|i: int| #[trigger] is_last_collected(evaluations, i, name) implies collected(
            evaluations,
        )[name] == evaluations[i]->Some_0.package_references()[name] by {
            if i < last {
                assert(!(evaluations[last] is Some
                    && evaluations[last]->Some_0.package_references().contains_key(name)));
                assert forall|j: int| i < j < fewer.len() implies !((
                #[trigger] fewer[j]) is Some
                    && fewer[j]->Some_0.package_references().contains_key(name)) by {
                    assert(fewer[j] == evaluations[j]);
                }
                assert(is_last_collected(fewer, i, name));
                assert(collected(fewer).contains_key(name));
            }
        }
    }
}

/// Pruning removes `bin` and `obj` of every given directory.
pub proof fn law_pruning_removes_all_build_output(roots: Seq<PathView>, j: int)
    requires
        0 <= j < roots.len(),
    ensures
        output_dirs(roots).len() == 2 * roots.len(),
        output_dirs(roots)[2 * j].parts == roots[j].parts.push("bin"@),
        output_dirs(roots)[2 * j + 1].parts == roots[j].parts.push("obj"@),
        output_dirs(roots)[2 * j].absolute == roots[j].absolute,
        output_dirs(roots)[2 * j + 1].absolute == roots[j].absolute,
    decreases roots.len(),
{
    let fewer = roots.drop_last();
    lemma_output_dirs_len(fewer);
    if j < roots.len() - 1 {
        law_pruning_removes_all_build_output(fewer, j);
    }
}

proof fn lemma_output_dirs_len(roots: Seq<PathView>)
    ensures
        output_dirs(roots).len() == 2 * roots.len(),
    decreases roots.len(),
{
    if roots.len() > 0 {
        lemma_output_dirs_len(roots.drop_last());
    }
}

/// A list of evaluations says what its evaluations say, in order.
pub proof fn law_evaluation_lists_say_what_they_hold(
    evaluations: Seq<Option<MsbuildEvaluation>>,
    i: int,
)
    requires
        0 <= i < evaluations.len(),
    ensures
        evaluation_views(evaluations).len() == evaluations.len(),
        evaluations[i] is Some ==> evaluation_views(evaluations)[i] == Some(
            evaluations[i]->Some_0@,
        ),
        evaluations[i] is None ==> evaluation_views(evaluations)[i] is None,
{
}

/// A tool manifest is a plain file called `dotnet-tools.json`.
pub proof fn law_tool_manifests_are_told_by_name(level: DirListing)
    ensures
        has_tool_manifest(level) <==> discovery::is_file_of(
            level.entries@,
            "dotnet-tools.json"@,
        ),
{
}

} // verus!
