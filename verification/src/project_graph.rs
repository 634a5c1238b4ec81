//! Extending moon's project graph from evaluated MSBuild projects.

use crate::config::DotnetToolchainConfig;
use crate::config::InferTasksSetting;
use crate::infer_tasks;
use crate::infer_tasks::InferInputs;
use crate::infer_tasks::InferView;
use crate::infer_tasks::InferredTask;
use crate::infer_tasks::TaskError;
use crate::infer_tasks::TaskFault;
use crate::infer_tasks::TaskView;
use crate::msbuild;
use crate::msbuild::MsbuildEvaluation;
use crate::str_map::StrMap;
use crate::text;
use vstd::prelude::*;

verus! {

// ---------------------------------------------------------------------------
// Projects
// ---------------------------------------------------------------------------

/// An MSBuild project file of a moon project.
#[derive(Debug, PartialEq, Eq)]
pub struct ProjectFile {
    /// The file name.
    pub name: String,
    /// The host-real path, where there is one.
    pub real_path: Option<String>,
    /// The host-real path of the directory that the file lies in.
    pub project_dir: String,
    /// The path inside the plugin, where there is one.
    pub virtual_path: Option<String>,
    /// What MSBuild evaluated the file to, where that succeeded.
    pub evaluation: Option<MsbuildEvaluation>,
}

/// A moon project that holds MSBuild project files.
#[derive(Debug, PartialEq, Eq)]
pub struct GraphProject {
    pub id: String,
    /// Where the project lies, relative to the workspace root.
    pub source: String,
    /// The project files, in order.
    pub files: Vec<ProjectFile>,
    /// Whether a NuGet lock file lies next to the project files.
    pub has_lock_file: bool,
    /// Whether the `global.json` governing this project selects
    /// Microsoft.Testing.Platform for `dotnet test`.
    pub test_platform_runner: bool,
}

/// The real paths of the files that have one, in order.
pub open spec fn real_paths(files: Seq<ProjectFile>) -> Seq<Seq<char>>
    decreases files.len(),
{
    if files.len() == 0 {
        Seq::empty()
    } else {
        match files.last().real_path {
            Some(path) => real_paths(files.drop_last()).push(path@),
            None => real_paths(files.drop_last()),
        }
    }
}

/// The real paths of all project files, project by project.
pub open spec fn all_real_paths(projects: Seq<GraphProject>) -> Seq<Seq<char>>
    decreases projects.len(),
{
    if projects.len() == 0 {
        Seq::empty()
    } else {
        all_real_paths(projects.drop_last()) + real_paths(projects.last().files@)
    }
}

/// Appends the real paths of the files that have one.
fn push_real_paths(r: &mut Vec<String>, files: &[ProjectFile])
    ensures
        text::views(final(r)@) == text::views(old(r)@) + real_paths(files@),
{
    let ghost start = text::views(r@);
    assert(files@.take(0) =~= Seq::empty());
    assert(start + real_paths(files@.take(0)) =~= start);
    for i in 0..files.len()
        invariant
            text::views(r@) == start + real_paths(files@.take(i as int)),
    {
        assert(files@.take(i + 1).drop_last() =~= files@.take(i as int));
        if let Some(path) = &files[i].real_path {
            text::push_owned(r, path.as_str());
        }
        assert(text::views(r@) =~= start + real_paths(files@.take(i + 1)));
    }
    assert(files@.take(files@.len() as int) =~= files@);
}

/// The project files to evaluate in one batch: the dotnet/MSBuild startup cost
/// dominates per-project evaluation, so a single invocation is the difference
/// between minutes and seconds on large workspaces.
pub fn batch_project_paths(projects: &[GraphProject]) -> (r: Vec<String>)
    ensures
        text::views(r@) == all_real_paths(projects@),
{
    let mut r: Vec<String> = Vec::new();
    assert(projects@.take(0) =~= Seq::empty());
    assert(text::views(r@) =~= Seq::empty());
    for i in 0..projects.len()
        invariant
            text::views(r@) == all_real_paths(projects@.take(i as int)),
    {
        assert(projects@.take(i + 1).drop_last() =~= projects@.take(i as int));
        push_real_paths(&mut r, &projects[i].files);
    }
    assert(projects@.take(projects@.len() as int) =~= projects@);
    r
}

/// Takes the evaluation of a project file out of a batch. What is not there has to be
/// evaluated on its own, which keeps the batch purely an optimization.
pub fn take_batched(batch: &mut StrMap<MsbuildEvaluation>, real_path: &str) -> (r: Option<
    MsbuildEvaluation,
>)
    ensures
        final(batch)@ == old(batch)@.remove(msbuild::path_key(real_path@)),
        match r {
            Some(evaluation) => old(batch)@.contains_key(msbuild::path_key(real_path@)) && old(
                batch,
            )@[msbuild::path_key(real_path@)] == evaluation@,
            None => !old(batch)@.contains_key(msbuild::path_key(real_path@)),
        },
{
    let key = msbuild::normalize_path_key(real_path);
    batch.remove(key.as_str())
}

// ---------------------------------------------------------------------------
// Resolving references
// ---------------------------------------------------------------------------

/// Which project each project file belongs to.
///
/// `real_paths` knows the files by their normalized host-real paths. `suffixes` knows
/// them by the normalized workspace-relative `/<source>/<file>`, for cases where the
/// exact real paths differ lexically, e.g. Windows 8.3 short names in the workspace
/// prefix (MSBuild prints expanded long paths). A suffix that several files share
/// belongs to none.
#[derive(Debug, PartialEq, Eq)]
pub struct ProjectIndex {
    pub real_paths: StrMap<String>,
    pub suffixes: StrMap<Option<String>>,
}

/// What a [`ProjectIndex`] says.
#[verifier::ext_equal]
pub struct IndexView {
    pub real_paths: Map<Seq<char>, Seq<char>>,
    pub suffixes: Map<Seq<char>, Option<Seq<char>>>,
}

impl View for ProjectIndex {
    type V = IndexView;

    open spec fn view(&self) -> IndexView {
        IndexView { real_paths: self.real_paths@, suffixes: self.suffixes@ }
    }
}

/// The normalized workspace-relative path of a project file, from a slash on.
pub open spec fn file_suffix(source: Seq<char>, name: Seq<char>) -> Seq<char> {
    let dir = text::trimmed(source, '/');
    if dir.len() == 0 || dir == "."@ {
        msbuild::path_key("/"@ + name)
    } else {
        msbuild::path_key("/"@ + dir + "/"@ + name)
    }
}

/// An index that knows one file more.
pub open spec fn with_file(
    index: IndexView,
    id: Seq<char>,
    source: Seq<char>,
    file: ProjectFile,
) -> IndexView {
    let suffix = file_suffix(source, file.name@);
    IndexView {
        real_paths: match file.real_path {
            Some(path) => index.real_paths.insert(msbuild::path_key(path@), id),
            None => index.real_paths,
        },
        suffixes: index.suffixes.insert(
            suffix,
            if index.suffixes.contains_key(suffix) {
                None
            } else {
                Some(id)
            },
        ),
    }
}

/// An index that knows more files of one project.
pub open spec fn with_files(
    index: IndexView,
    id: Seq<char>,
    source: Seq<char>,
    files: Seq<ProjectFile>,
) -> IndexView
    decreases files.len(),
{
    if files.len() == 0 {
        index
    } else {
        with_file(with_files(index, id, source, files.drop_last()), id, source, files.last())
    }
}

/// The index of all project files.
pub open spec fn index_of(projects: Seq<GraphProject>) -> IndexView
    decreases projects.len(),
{
    if projects.len() == 0 {
        IndexView { real_paths: Map::empty(), suffixes: Map::empty() }
    } else {
        with_files(
            index_of(projects.drop_last()),
            projects.last().id@,
            projects.last().source@,
            projects.last().files@,
        )
    }
}

/// The normalized workspace-relative path of a project file.
fn suffix_of(source: &str, name: &str) -> (r: String)
    ensures
        r@ == file_suffix(source@, name@),
{
    let dir = text::trim_char(source, '/');
    let mut suffix = text::chars_of("/");
    if dir.len() > 0 && !text::same_text(text::string_of(&dir).as_str(), ".") {
        text::push_chars(&mut suffix, &dir);
        text::push_text(&mut suffix, "/");
    }
    text::push_text(&mut suffix, name);
    msbuild::normalize_path_key(text::string_of(&suffix).as_str())
}

/// Adds the files of one project to an index.
fn index_files(index: &mut ProjectIndex, project: &GraphProject)
    ensures
        final(index)@ == with_files(
            old(index)@,
            project.id@,
            project.source@,
            project.files@,
        ),
{
    let ghost start = index@;
    let ghost files = project.files@;
    assert(files.take(0) =~= Seq::empty());
    for i in 0..project.files.len()
        invariant
            files == project.files@,
            index@ == with_files(start, project.id@, project.source@, files.take(i as int)),
    {
        assert(files.take(i + 1).drop_last() =~= files.take(i as int));
        let ghost was = index@;
        let file = &project.files[i];
        if let Some(path) = &file.real_path {
            index.real_paths.insert(
                msbuild::normalize_path_key(path.as_str()),
                project.id.clone(),
            );
        }
        let suffix = suffix_of(project.source.as_str(), file.name.as_str());
        let owner: Option<String> = if index.suffixes.contains_key(suffix.as_str()) {
            None
        } else {
            Some(project.id.clone())
        };
        index.suffixes.insert(suffix, owner);
        assert(index@ =~= with_file(was, project.id@, project.source@, files[i as int]));
    }
    assert(files.take(files.len() as int) =~= files);
}

/// Indexes the project files of all projects.
pub fn index_projects(projects: &[GraphProject]) -> (r: ProjectIndex)
    ensures
        r@ == index_of(projects@),
{
    let mut index = ProjectIndex { real_paths: StrMap::new(), suffixes: StrMap::new() };
    assert(projects@.take(0) =~= Seq::empty());
    assert(index@ =~= index_of(projects@.take(0)));
    for i in 0..projects.len()
        invariant
            index@ == index_of(projects@.take(i as int)),
    {
        assert(projects@.take(i + 1).drop_last() =~= projects@.take(i as int));
        index_files(&mut index, &projects[i]);
    }
    assert(projects@.take(projects@.len() as int) =~= projects@);
    index
}

/// A suffix that belongs to one project and that the key ends with.
pub open spec fn is_match(
    suffixes: Map<Seq<char>, Option<Seq<char>>>,
    key: Seq<char>,
    suffix: Seq<char>,
) -> bool {
    suffixes.contains_key(suffix) && suffixes[suffix] is Some && suffix.is_suffix_of(key)
}

/// The one suffix that matches.
pub open spec fn is_only_match(
    suffixes: Map<Seq<char>, Option<Seq<char>>>,
    key: Seq<char>,
    suffix: Seq<char>,
) -> bool {
    is_match(suffixes, key, suffix) && forall|other: Seq<char>| #[trigger]
        is_match(suffixes, key, other) ==> other == suffix
}

impl IndexView {
    /// The project that a reference leads to: the one with that real path, or else the
    /// one with the only matching suffix. Where several suffixes match, which they do
    /// where one project lies at the end of the path of another, none is taken.
    pub open spec fn project_at(self, reference: Seq<char>) -> Option<Seq<char>> {
        let key = msbuild::path_key(reference);
        if self.real_paths.contains_key(key) {
            Some(self.real_paths[key])
        } else if exists|suffix: Seq<char>| #[trigger] is_only_match(self.suffixes, key, suffix) {
            self.suffixes[choose|suffix: Seq<char>| #[trigger]
                is_only_match(self.suffixes, key, suffix)]
        } else {
            None
        }
    }
}

impl ProjectIndex {
    /// The project that the only matching suffix belongs to.
    fn match_suffix(&self, key: &str) -> (r: Option<&str>)
        ensures
            match r {
                Some(id) => exists|suffix: Seq<char>| #[trigger]
                    is_only_match(self.suffixes@, key@, suffix) && self.suffixes@[suffix] == Some(
                        id@,
                    ),
                None => forall|suffix: Seq<char>| !#[trigger]
                    is_only_match(self.suffixes@, key@, suffix),
            },
    {
        let keys = self.suffixes.keys();
        let ghost ks = text::views(keys@);
        let chars = text::chars_of(key);
        let mut matched: Option<&str> = None;
        let ghost mut at: int = 0;
        for i in 0..keys.len()
            invariant
                ks == text::views(keys@),
                chars@ == key@,
                crate::str_map::enumerates(ks, self.suffixes@.dom()),
                match matched {
                    Some(id) => {
                        &&& 0 <= at < i
                        &&& is_match(self.suffixes@, key@, ks[at])
                        &&& self.suffixes@[ks[at]] == Some(id@)
                        &&& forall|j: int|
                            0 <= j < i && j != at ==> !is_match(
                                self.suffixes@,
                                key@,
                                #[trigger] ks[j],
                            )
                    },
                    None => forall|j: int|
                        0 <= j < i ==> !is_match(self.suffixes@, key@, #[trigger] ks[j]),
                },
        {
            assert(ks[i as int] == keys@[i as int]@);
            let suffix = text::chars_of(keys[i].as_str());
            if text::ends_with(&chars, &suffix) {
                if let Some(owner) = self.suffixes.get(keys[i].as_str()) {
                    if let Some(id) = owner {
                        assert(is_match(self.suffixes@, key@, ks[i as int]));
                        if matched.is_some() {
                            proof {
                                lemma_two_matches(self.suffixes@, key@, ks, at, i as int);
                            }
                            return None;
                        }
                        matched = Some(id.as_str());
                        proof {
                            at = i as int;
                        }
                    }
                }
            }
        }
        proof {
            assert forall|other: Seq<char>| #[trigger]
                is_match(self.suffixes@, key@, other) implies matched is Some && other
                == ks[at] by {
                assert(self.suffixes@.dom().contains(other));
                let j = choose|j: int| 0 <= j < ks.len() && ks[j] == other;
                assert(is_match(self.suffixes@, key@, ks[j]));
            }
            if matched is Some {
                assert(is_only_match(self.suffixes@, key@, ks[at]));
            }
        }
        matched
    }

    /// The project that a reference leads to: exact real-path match first, then the
    /// unique workspace-relative suffix.
    pub fn resolve(&self, reference: &str) -> (r: Option<&str>)
        ensures
            match r {
                Some(id) => self@.project_at(reference@) == Some(id@),
                None => self@.project_at(reference@) is None,
            },
    {
        let key = msbuild::normalize_path_key(reference);
        if let Some(id) = self.real_paths.get(key.as_str()) {
            return Some(id.as_str());
        }
        let r = self.match_suffix(key.as_str());
        proof {
            let suffixes = self.suffixes@;
            if r is Some {
                let found = choose|suffix: Seq<char>| #[trigger]
                    is_only_match(suffixes, key@, suffix) && suffixes[suffix] == Some(
                        r->Some_0@,
                    );
                let named = choose|suffix: Seq<char>| #[trigger]
                    is_only_match(suffixes, key@, suffix);
                assert(is_only_match(suffixes, key@, named));
                assert(is_match(suffixes, key@, named));
                assert(found == named);
            }
        }
        r
    }
}

/// Where two suffixes match, none is the only one.
proof fn lemma_two_matches(
    suffixes: Map<Seq<char>, Option<Seq<char>>>,
    key: Seq<char>,
    ks: Seq<Seq<char>>,
    i: int,
    j: int,
)
    requires
        crate::str_map::enumerates(ks, suffixes.dom()),
        0 <= i < j < ks.len(),
        is_match(suffixes, key, ks[i]),
        is_match(suffixes, key, ks[j]),
    ensures
        forall|suffix: Seq<char>| !#[trigger] is_only_match(suffixes, key, suffix),
{
    text::lemma_before_irreflexive(ks[i]);
    assert(ks[i] != ks[j]);
}

// ---------------------------------------------------------------------------
// One project
// ---------------------------------------------------------------------------

/// A piece of a path that names something.
pub open spec fn is_named(piece: Seq<char>) -> bool {
    piece.len() > 0 && piece != "."@
}

/// The last component of a path, where that is a name.
pub open spec fn file_name(path: Seq<char>) -> Option<Seq<char>> {
    let named = text::split(path, '/').filter(|piece: Seq<char>| is_named(piece));
    if named.len() == 0 || named.last() == ".."@ {
        None
    } else {
        Some(named.last())
    }
}

/// The last component of a path, or all of the path where that is no name.
pub open spec fn shown_name(path: Seq<char>) -> Seq<char> {
    match file_name(path) {
        Some(name) => name,
        None => path,
    }
}

/// The last component of a path, or all of the path where that is no name.
fn shown_name_of(path: &str) -> (r: String)
    ensures
        r@ == shown_name(path@),
{
    let pieces = text::split_text(path, '/');
    let ghost all = text::split(path@, '/');
    let ghost chosen = |piece: Seq<char>| is_named(piece);
    let mut i: usize = pieces.len();
    assert(all.len() == pieces@.len());
    assert(all.take(all.len() as int) =~= all);
    while i > 0
        invariant
            all == text::views(pieces@),
            all == text::split(path@, '/'),
            chosen == (|piece: Seq<char>| is_named(piece)),
            i <= pieces@.len(),
            all.filter(chosen) == all.take(i as int).filter(chosen),
        decreases i,
    {
        let piece = pieces[i - 1].as_str();
        proof {
            reveal(Seq::filter);
            assert(all[i - 1] == piece@);
            assert(all.take(i as int).drop_last() =~= all.take(i - 1));
            assert(all.take(i as int).last() == piece@);
        }
        if !piece.is_empty() && !text::same_text(piece, ".") {
            assert(all.filter(chosen).last() == piece@);
            if text::same_text(piece, "..") {
                return text::owned(path);
            }
            return text::owned(piece);
        }
        i -= 1;
    }
    proof {
        reveal(Seq::filter);
        assert(all.take(0) =~= Seq::empty());
    }
    text::owned(path)
}

/// How one project relies on another.
#[derive(Debug, PartialEq, Eq, Structural, Clone, Copy)]
pub enum DependencyScope {
    Build,
    Development,
    Peer,
    Production,
    Root,
}

/// A project that another one depends on.
#[derive(Debug, PartialEq, Eq)]
pub struct ProjectDependency {
    pub id: String,
    pub scope: DependencyScope,
    /// Where the dependency came from.
    pub via: String,
}

/// What a [`ProjectDependency`] says.
pub struct DependencyView {
    pub id: Seq<char>,
    pub scope: DependencyScope,
    pub via: Seq<char>,
}

impl View for ProjectDependency {
    type V = DependencyView;

    open spec fn view(&self) -> DependencyView {
        DependencyView { id: self.id@, scope: self.scope, via: self.via@ }
    }
}

/// The views of a list of dependencies.
pub open spec fn dependency_views(list: Seq<ProjectDependency>) -> Seq<DependencyView> {
    list.map_values(|dependency: ProjectDependency| dependency@)
}

/// One of the dependencies is on that project.
pub open spec fn depends_on(dependencies: Seq<DependencyView>, id: Seq<char>) -> bool {
    exists|i: int| 0 <= i < dependencies.len() && (#[trigger] dependencies[i]).id == id
}

/// The dependencies after one reference more. A reference to the project itself, to a
/// project that is a dependency already, or out of the workspace adds none.
pub open spec fn with_reference(
    dependencies: Seq<DependencyView>,
    index: IndexView,
    id: Seq<char>,
    reference: Seq<char>,
) -> Seq<DependencyView> {
    match index.project_at(reference) {
        Some(other) => if other != id && !depends_on(dependencies, other) {
            dependencies.push(
                DependencyView {
                    id: other,
                    scope: DependencyScope::Production,
                    via: "project-reference "@ + shown_name(reference),
                },
            )
        } else {
            dependencies
        },
        None => dependencies,
    }
}

/// The dependencies after more references.
pub open spec fn with_references(
    dependencies: Seq<DependencyView>,
    index: IndexView,
    id: Seq<char>,
    references: Seq<Seq<char>>,
) -> Seq<DependencyView>
    decreases references.len(),
{
    if references.len() == 0 {
        dependencies
    } else {
        with_reference(
            with_references(dependencies, index, id, references.drop_last()),
            index,
            id,
            references.last(),
        )
    }
}

/// Whether one of the dependencies is on that project.
fn has_dependency(dependencies: &[ProjectDependency], id: &str) -> (r: bool)
    ensures
        r == depends_on(dependency_views(dependencies@), id@),
{
    let ghost all = dependency_views(dependencies@);
    for i in 0..dependencies.len()
        invariant
            all == dependency_views(dependencies@),
            forall|j: int| 0 <= j < i ==> (#[trigger] all[j]).id != id@,
    {
        assert(all[i as int] == dependencies@[i as int]@);
        if text::same_text(dependencies[i].id.as_str(), id) {
            return true;
        }
    }
    false
}

/// Adds the dependencies that the references of a project file lead to.
fn push_references(
    dependencies: &mut Vec<ProjectDependency>,
    index: &ProjectIndex,
    id: &str,
    references: &[String],
)
    ensures
        dependency_views(final(dependencies)@) == with_references(
            dependency_views(old(dependencies)@),
            index@,
            id@,
            text::views(references@),
        ),
{
    let ghost start = dependency_views(dependencies@);
    let ghost all = text::views(references@);
    assert(all.take(0) =~= Seq::empty());
    for i in 0..references.len()
        invariant
            all == text::views(references@),
            dependency_views(dependencies@) == with_references(
                start,
                index@,
                id@,
                all.take(i as int),
            ),
    {
        let reference = references[i].as_str();
        assert(all[i as int] == reference@);
        assert(all.take(i + 1).drop_last() =~= all.take(i as int));
        if let Some(other) = index.resolve(reference) {
            if !text::same_text(other, id) && !has_dependency(dependencies, other) {
                let name = shown_name_of(reference);
                let ghost was = dependencies@;
                let dependency = ProjectDependency {
                    id: text::owned(other),
                    scope: DependencyScope::Production,
                    via: text::concat("project-reference ", name.as_str()),
                };
                dependencies.push(dependency);
                assert(dependency_views(dependencies@) =~= dependency_views(was).push(dependency@));
            }
        }
    }
    assert(all.take(all.len() as int) =~= all);
}

/// What is contributed to one project.
#[derive(Debug, PartialEq, Eq)]
pub struct ExtendProjectOutput {
    /// A name for the project besides its id.
    pub alias: Option<String>,
    pub dependencies: Vec<ProjectDependency>,
    pub tasks: StrMap<InferredTask>,
}

/// What an [`ExtendProjectOutput`] says.
#[verifier::ext_equal]
pub struct OutputView {
    pub alias: Option<Seq<char>>,
    pub dependencies: Seq<DependencyView>,
    pub tasks: Map<Seq<char>, TaskView>,
}

impl View for ExtendProjectOutput {
    type V = OutputView;

    open spec fn view(&self) -> OutputView {
        OutputView {
            alias: match self.alias {
                Some(alias) => Some(alias@),
                None => None,
            },
            dependencies: dependency_views(self.dependencies@),
            tasks: self.tasks@,
        }
    }
}

impl DeepView for ExtendProjectOutput {
    type V = OutputView;

    open spec fn deep_view(&self) -> OutputView {
        self.view()
    }
}

/// All that the evaluated files of one project give.
#[derive(Debug)]
pub struct ExtendedProject {
    pub output: ExtendProjectOutput,
    /// The packages that the project references, over all its files.
    pub packages: StrMap<String>,
    /// Whether every project file was evaluated. A partial package set is
    /// indistinguishable from a complete one, so only complete ones are cached.
    pub evaluated_all: bool,
    /// The project files that were evaluated, by their paths inside the plugin.
    pub input_files: Vec<String>,
    /// Why tasks could not be inferred, for each file for which they could not.
    pub task_errors: Vec<TaskError>,
}

/// What an [`ExtendedProject`] says.
#[verifier::ext_equal]
pub struct ExtendedView {
    pub output: OutputView,
    pub packages: Map<Seq<char>, Seq<char>>,
    pub evaluated_all: bool,
    pub input_files: Seq<Seq<char>>,
    pub task_faults: Seq<TaskFault>,
}

impl View for ExtendedProject {
    type V = ExtendedView;

    open spec fn view(&self) -> ExtendedView {
        ExtendedView {
            output: self.output@,
            packages: self.packages@,
            evaluated_all: self.evaluated_all,
            input_files: text::views(self.input_files@),
            task_faults: self.task_errors@.map_values(|error: TaskError| error.fault()),
        }
    }
}

/// What the whole workspace knows while one project is extended.
pub struct WorkspaceView {
    pub index: IndexView,
    pub infer_dependencies: bool,
    pub infer_tasks: InferTasksSetting,
    pub reserved_ids: Seq<Seq<char>>,
    pub workspace_dir: Seq<char>,
}

/// What task inference knows of one project file.
pub open spec fn infer_view(
    workspace: WorkspaceView,
    project: GraphProject,
    file: ProjectFile,
) -> InferView {
    InferView {
        evaluation: file.evaluation->Some_0@,
        file: if project.files@.len() > 1 {
            Some(file.name@)
        } else {
            None
        },
        project_dir: file.project_dir@,
        workspace_dir: workspace.workspace_dir,
        test_platform_runner: project.test_platform_runner,
    }
}

/// What is contributed to a project that nothing is known of yet.
pub open spec fn nothing_extended() -> ExtendedView {
    ExtendedView {
        output: OutputView {
            alias: None,
            dependencies: Seq::empty(),
            tasks: Map::empty(),
        },
        packages: Map::empty(),
        evaluated_all: true,
        input_files: Seq::empty(),
        task_faults: Seq::empty(),
    }
}

/// What is contributed to a project after one file more. A file that was not evaluated
/// contributes nothing. Otherwise its packages, its references, its assembly name and
/// its tasks count, where the first assembly name and the first task of each id win.
pub open spec fn with_evaluated_file(
    so_far: ExtendedView,
    workspace: WorkspaceView,
    project: GraphProject,
    file: ProjectFile,
) -> ExtendedView {
    if file.real_path is None || file.evaluation is None {
        ExtendedView { evaluated_all: false, ..so_far }
    } else {
        let evaluation = file.evaluation->Some_0@;
        let assembly = evaluation.property("AssemblyName"@);
        let inferred = infer_tasks::inferred_tasks(
            workspace.infer_tasks,
            workspace.reserved_ids,
            infer_view(workspace, project, file),
        );
        ExtendedView {
            output: OutputView {
                alias: if so_far.output.alias is None && assembly.len() > 0 {
                    Some(assembly)
                } else {
                    so_far.output.alias
                },
                dependencies: if workspace.infer_dependencies {
                    with_references(
                        so_far.output.dependencies,
                        workspace.index,
                        project.id@,
                        evaluation.project_reference_paths(),
                    )
                } else {
                    so_far.output.dependencies
                },
                tasks: if workspace.infer_tasks.is_enabled() && inferred is Ok {
                    inferred->Ok_0.union_prefer_right(so_far.output.tasks)
                } else {
                    so_far.output.tasks
                },
            },
            packages: so_far.packages.union_prefer_right(evaluation.package_references()),
            evaluated_all: so_far.evaluated_all,
            input_files: match file.virtual_path {
                Some(path) => so_far.input_files.push(path@),
                None => so_far.input_files,
            },
            task_faults: if workspace.infer_tasks.is_enabled() && inferred is Err {
                so_far.task_faults.push(inferred->Err_0)
            } else {
                so_far.task_faults
            },
        }
    }
}

/// What is contributed to a project by the first files of it.
pub open spec fn with_evaluated_files(
    workspace: WorkspaceView,
    project: GraphProject,
    files: Seq<ProjectFile>,
) -> ExtendedView
    decreases files.len(),
{
    if files.len() == 0 {
        nothing_extended()
    } else {
        with_evaluated_file(
            with_evaluated_files(workspace, project, files.drop_last()),
            workspace,
            project,
            files.last(),
        )
    }
}

/// What is contributed to a project.
pub open spec fn extended_project(
    workspace: WorkspaceView,
    project: GraphProject,
) -> ExtendedView {
    with_evaluated_files(workspace, project, project.files@)
}

/// What the whole workspace contributes to each of its projects.
pub struct Workspace<'a> {
    pub index: &'a ProjectIndex,
    pub config: &'a DotnetToolchainConfig,
    /// The task ids that inherited task files define.
    pub reserved_ids: &'a [String],
    /// The host-real path of the workspace root.
    pub workspace_dir: &'a str,
}

impl<'a> View for Workspace<'a> {
    type V = WorkspaceView;

    open spec fn view(&self) -> WorkspaceView {
        WorkspaceView {
            index: self.index@,
            infer_dependencies: self.config.infer_dependencies,
            infer_tasks: self.config.infer_tasks,
            reserved_ids: text::views(self.reserved_ids@),
            workspace_dir: self.workspace_dir@,
        }
    }
}

/// Adds what one evaluated file contributes.
fn extend_with_file(
    so_far: ExtendedProject,
    workspace: &Workspace,
    project: &GraphProject,
    file: &ProjectFile,
) -> (r: ExtendedProject)
    ensures
        r@ == with_evaluated_file(so_far@, workspace@, *project, *file),
{
    let ghost before = so_far@;
    let mut r = so_far;
    let evaluation = match (&file.real_path, &file.evaluation) {
        (Some(_), Some(evaluation)) => evaluation,
        _ => {
            r.evaluated_all = false;
            return r;
        },
    };
    r.packages.extend(&evaluation.package_references());
    if r.output.alias.is_none() {
        let assembly = evaluation.property("AssemblyName");
        if !assembly.is_empty() {
            r.output.alias = Some(text::owned(assembly));
        }
    }
    if workspace.config.infer_dependencies {
        push_references(
            &mut r.output.dependencies,
            workspace.index,
            project.id.as_str(),
            &evaluation.project_reference_paths(),
        );
    }
    if workspace.config.infer_tasks.any_enabled() {
        let inputs = InferInputs {
            evaluation,
            explicit_project_file: if project.files.len() > 1 {
                Some(file.name.as_str())
            } else {
                None
            },
            project_dir: file.project_dir.as_str(),
            workspace_dir: workspace.workspace_dir,
            test_platform_runner: project.test_platform_runner,
        };
        assert(inputs@ == infer_view(workspace@, *project, *file));
        match infer_tasks::infer_tasks(
            &workspace.config.infer_tasks,
            workspace.reserved_ids,
            &inputs,
        ) {
            Ok(tasks) => {
                r.output.tasks.extend_missing(tasks);
            },
            Err(error) => {
                let ghost errors = r.task_errors@;
                r.task_errors.push(error);
                assert(r.task_errors@.map_values(|error: TaskError| error.fault())
                    =~= errors.map_values(|error: TaskError| error.fault()).push(error.fault()));
            },
        }
    }
    if let Some(path) = &file.virtual_path {
        text::push_owned(&mut r.input_files, path.as_str());
    }
    assert(r@ =~= with_evaluated_file(before, workspace@, *project, *file));
    r
}

/// What is contributed to one project: a broken file must not take down graph
/// construction for the whole workspace, so it merely contributes nothing.
pub fn extend_project(workspace: &Workspace, project: &GraphProject) -> (r: ExtendedProject)
    ensures
        r@ == extended_project(workspace@, *project),
{
    let mut r = ExtendedProject {
        output: ExtendProjectOutput {
            alias: None,
            dependencies: Vec::new(),
            tasks: StrMap::new(),
        },
        packages: StrMap::new(),
        evaluated_all: true,
        input_files: Vec::new(),
        task_errors: Vec::new(),
    };
    let ghost files = project.files@;
    assert(files.take(0) =~= Seq::empty());
    assert(r@ =~= nothing_extended());
    for i in 0..project.files.len()
        invariant
            files == project.files@,
            r@ == with_evaluated_files(workspace@, *project, files.take(i as int)),
    {
        assert(files.take(i + 1).drop_last() =~= files.take(i as int));
        r = extend_with_file(r, workspace, project, &project.files[i]);
    }
    assert(files.take(files.len() as int) =~= files);
    r
}

// ---------------------------------------------------------------------------
// The graph
// ---------------------------------------------------------------------------

/// Why tasks could not be inferred for a project.
#[derive(Debug)]
pub struct TaskFailure {
    pub id: String,
    pub error: TaskError,
}

/// What is contributed to the project graph.
#[derive(Debug)]
pub struct ExtendProjectGraphOutput {
    /// What is contributed to each project, by id.
    pub extended_projects: StrMap<ExtendProjectOutput>,
    /// The files that the graph depends on.
    pub input_files: Vec<String>,
    /// The package sets to cache for task hashing, by project id.
    pub package_sets: StrMap<StrMap<String>>,
    /// Where task inference failed.
    pub task_failures: Vec<TaskFailure>,
}

/// What an [`ExtendProjectGraphOutput`] says.
#[verifier::ext_equal]
pub struct GraphView {
    pub extended_projects: Map<Seq<char>, OutputView>,
    pub input_files: Seq<Seq<char>>,
    pub package_sets: Map<Seq<char>, Map<Seq<char>, Seq<char>>>,
    pub task_failures: Seq<(Seq<char>, TaskFault)>,
}

impl View for ExtendProjectGraphOutput {
    type V = GraphView;

    open spec fn view(&self) -> GraphView {
        GraphView {
            extended_projects: self.extended_projects@,
            input_files: text::views(self.input_files@),
            package_sets: self.package_sets@,
            task_failures: failure_views(self.task_failures@),
        }
    }
}

/// The views of a list of failures.
pub open spec fn failure_views(list: Seq<TaskFailure>) -> Seq<(Seq<char>, TaskFault)> {
    list.map_values(|failure: TaskFailure| (failure.id@, failure.error.fault()))
}

/// There is something to contribute to the project.
pub open spec fn contributes(output: OutputView) -> bool {
    ||| output.dependencies.len() > 0
    ||| output.tasks != Map::<Seq<char>, TaskView>::empty()
    ||| output.alias is Some
}

/// The graph that nothing is contributed to.
pub open spec fn empty_graph() -> GraphView {
    GraphView {
        extended_projects: Map::empty(),
        input_files: Seq::empty(),
        package_sets: Map::empty(),
        task_failures: Seq::empty(),
    }
}

/// What is contributed to the graph after one project more. The package set is handed
/// to task hashing where it is complete; projects with a lock file never need it.
pub open spec fn with_project(
    so_far: GraphView,
    workspace: WorkspaceView,
    project: GraphProject,
) -> GraphView {
    let extension = extended_project(workspace, project);
    GraphView {
        extended_projects: if contributes(extension.output) {
            so_far.extended_projects.insert(project.id@, extension.output)
        } else {
            so_far.extended_projects
        },
        input_files: so_far.input_files + extension.input_files,
        package_sets: if extension.evaluated_all && !project.has_lock_file {
            so_far.package_sets.insert(project.id@, extension.packages)
        } else {
            so_far.package_sets
        },
        task_failures: so_far.task_failures + extension.task_faults.map_values(
            |fault: TaskFault| (project.id@, fault),
        ),
    }
}

/// What the projects contribute to the graph.
pub open spec fn with_projects(workspace: WorkspaceView, projects: Seq<GraphProject>) -> GraphView
    decreases projects.len(),
{
    if projects.len() == 0 {
        empty_graph()
    } else {
        with_project(
            with_projects(workspace, projects.drop_last()),
            workspace,
            projects.last(),
        )
    }
}

/// The graph is extended at all.
pub open spec fn is_extended(config: DotnetToolchainConfig) -> bool {
    config.infer_dependencies || config.infer_tasks.is_enabled()
}

/// What the workspace knows while its projects are extended.
pub open spec fn workspace_of(
    config: DotnetToolchainConfig,
    projects: Seq<GraphProject>,
    reserved_ids: Seq<Seq<char>>,
    workspace_dir: Seq<char>,
) -> WorkspaceView {
    WorkspaceView {
        index: index_of(projects),
        infer_dependencies: config.infer_dependencies,
        infer_tasks: config.infer_tasks,
        reserved_ids,
        workspace_dir,
    }
}

/// What is contributed to the project graph.
pub open spec fn extended_graph(
    config: DotnetToolchainConfig,
    projects: Seq<GraphProject>,
    reserved_ids: Seq<Seq<char>>,
    workspace_dir: Seq<char>,
) -> GraphView {
    if is_extended(config) {
        with_projects(
            workspace_of(config, projects, reserved_ids, workspace_dir),
            projects,
        )
    } else {
        empty_graph()
    }
}

/// Appends the failures of one project.
fn push_failures(list: &mut Vec<TaskFailure>, id: &str, errors: Vec<TaskError>)
    ensures
        failure_views(final(list)@) == failure_views(old(list)@) + errors@.map_values(
            |error: TaskError| error.fault(),
        ).map_values(|fault: TaskFault| (id@, fault)),
{
    let ghost start = failure_views(list@);
    let ghost given = errors@;
    let ghost faults = given.map_values(|error: TaskError| error.fault()).map_values(
        |fault: TaskFault| (id@, fault),
    );
    let ghost mut done: int = 0;
    let mut errors = errors;
    assert(given.skip(0) =~= given);
    assert(start + faults.take(0) =~= start);
    while errors.len() > 0
        invariant
            0 <= done <= given.len(),
            errors@ == given.skip(done),
            faults == given.map_values(|error: TaskError| error.fault()).map_values(
                |fault: TaskFault| (id@, fault),
            ),
            failure_views(list@) == start + faults.take(done),
        decreases errors@.len(),
    {
        let error = errors.remove(0);
        assert(error == given[done]);
        assert(errors@ =~= given.skip(done + 1));
        let ghost was = list@;
        list.push(TaskFailure { id: text::owned(id), error });
        assert(failure_views(list@) =~= failure_views(was).push((id@, error.fault())));
        assert(failure_views(list@) =~= start + faults.take(done + 1));
        proof {
            done = done + 1;
        }
    }
    assert(faults.take(done) =~= faults);
}

/// Adds what one project contributes.
fn extend_with_project(
    so_far: ExtendProjectGraphOutput,
    workspace: &Workspace,
    project: &GraphProject,
) -> (r: ExtendProjectGraphOutput)
    ensures
        r@ == with_project(so_far@, workspace@, *project),
{
    let ghost before = so_far@;
    let mut r = so_far;
    let extension = extend_project(workspace, project);
    text::extend(&mut r.input_files, &extension.input_files);
    push_failures(&mut r.task_failures, project.id.as_str(), extension.task_errors);
    if extension.evaluated_all && !project.has_lock_file {
        r.package_sets.insert(project.id.clone(), extension.packages);
    }
    let output = extension.output;
    assert(output@.dependencies.len() == output.dependencies@.len());
    if output.dependencies.len() > 0 || !output.tasks.is_empty() || output.alias.is_some() {
        r.extended_projects.insert(project.id.clone(), output);
    }
    assert(r@ =~= with_project(before, workspace@, *project));
    r
}

/// What is contributed to the project graph: the references between projects as
/// dependencies, the inferred tasks, and the assembly names as aliases. `projects` are
/// the moon projects with MSBuild project files, in the order of their ids, after
/// evaluation; `reserved_ids` are the task ids that inherited task files define.
pub fn extend_project_graph(
    config: &DotnetToolchainConfig,
    projects: &[GraphProject],
    reserved_ids: &[String],
    workspace_dir: &str,
) -> (r: ExtendProjectGraphOutput)
    ensures
        r@ == extended_graph(*config, projects@, text::views(reserved_ids@), workspace_dir@),
{
    let mut r = ExtendProjectGraphOutput {
        extended_projects: StrMap::new(),
        input_files: Vec::new(),
        package_sets: StrMap::new(),
        task_failures: Vec::new(),
    };
    assert(r@ =~= empty_graph());
    if !config.infer_dependencies && !config.infer_tasks.any_enabled() {
        return r;
    }
    let index = index_projects(projects);
    let workspace = Workspace { index: &index, config, reserved_ids, workspace_dir };
    assert(workspace@ == workspace_of(
        *config,
        projects@,
        text::views(reserved_ids@),
        workspace_dir@,
    ));
    assert(projects@.take(0) =~= Seq::empty());
    for i in 0..projects.len()
        invariant
            r@ == with_projects(workspace@, projects@.take(i as int)),
    {
        assert(projects@.take(i + 1).drop_last() =~= projects@.take(i as int));
        r = extend_with_project(r, &workspace, &projects[i]);
    }
    assert(projects@.take(projects@.len() as int) =~= projects@);
    r
}

// ---------------------------------------------------------------------------
// Where to evaluate
// ---------------------------------------------------------------------------

/// The directories that a source names, from the workspace root on.
pub open spec fn source_parts(source: Seq<char>) -> Seq<Seq<char>> {
    text::split(source, '/').filter(|piece: Seq<char>| is_named(piece))
}

/// What two lists begin with alike.
pub open spec fn common_start(a: Seq<Seq<char>>, b: Seq<Seq<char>>) -> Seq<Seq<char>>
    decreases a.len(),
{
    if a.len() > 0 && b.len() > 0 && a[0] == b[0] {
        seq![a[0]] + common_start(a.drop_first(), b.drop_first())
    } else {
        Seq::empty()
    }
}

/// The directories that all sources begin with.
pub open spec fn common_parts(sources: Seq<Seq<char>>) -> Seq<Seq<char>>
    decreases sources.len(),
{
    if sources.len() == 0 {
        Seq::empty()
    } else if sources.len() == 1 {
        source_parts(sources[0])
    } else {
        common_start(common_parts(sources.drop_last()), source_parts(sources.last()))
    }
}

/// The directories that a source names.
fn source_parts_of(source: &str) -> (r: Vec<String>)
    ensures
        text::views(r@) == source_parts(source@),
{
    let pieces = text::split_text(source, '/');
    let ghost all = text::split(source@, '/');
    let ghost chosen = |piece: Seq<char>| is_named(piece);
    let mut r: Vec<String> = Vec::new();
    proof {
        reveal(Seq::filter);
        assert(text::views(r@) =~= all.take(0).filter(chosen));
    }
    for i in 0..pieces.len()
        invariant
            all == text::views(pieces@),
            chosen == (|piece: Seq<char>| is_named(piece)),
            text::views(r@) == all.take(i as int).filter(chosen),
    {
        let piece = pieces[i].as_str();
        proof {
            reveal(Seq::filter);
            assert(all[i as int] == piece@);
            assert(all.take(i + 1).drop_last() =~= all.take(i as int));
        }
        if !piece.is_empty() && !text::same_text(piece, ".") {
            text::push_owned(&mut r, piece);
        }
    }
    assert(all.take(all.len() as int) =~= all);
    r
}

/// What two lists begin with alike, from `i` on.
proof fn lemma_common_start_at(a: Seq<Seq<char>>, b: Seq<Seq<char>>, i: int)
    requires
        0 <= i <= a.len(),
        i <= b.len(),
        forall|j: int| 0 <= j < i ==> a[j] == b[j],
        i == a.len() || i == b.len() || a[i] != b[i],
    ensures
        common_start(a, b) == a.take(i),
    decreases a.len(),
{
    if i > 0 {
        let x = a.drop_first();
        let y = b.drop_first();
        assert(a[0] == b[0]);
        assert forall|j: int| 0 <= j < i - 1 implies x[j] == y[j] by {
            assert(a[j + 1] == b[j + 1]);
        }
        lemma_common_start_at(x, y, i - 1);
        assert(seq![a[0]] + x.take(i - 1) =~= a.take(i));
    } else {
        assert(common_start(a, b) =~= a.take(0));
    }
}

/// Shortens a list to what it begins with alike.
fn keep_common(list: &mut Vec<String>, other: &[String])
    ensures
        text::views(final(list)@) == common_start(text::views(old(list)@), text::views(other@)),
{
    let ghost a = text::views(list@);
    let ghost b = text::views(other@);
    let mut i: usize = 0;
    while i < list.len() && i < other.len() && text::same_text(list[i].as_str(), other[i].as_str())
        invariant
            a == text::views(list@),
            b == text::views(other@),
            i <= a.len(),
            i <= b.len(),
            forall|j: int| 0 <= j < i ==> a[j] == b[j],
        decreases a.len() - i,
    {
        assert(a[i as int] == list@[i as int]@ && b[i as int] == other@[i as int]@);
        i += 1;
    }
    proof {
        if i < a.len() && i < b.len() {
            assert(a[i as int] == list@[i as int]@ && b[i as int] == other@[i as int]@);
        }
        lemma_common_start_at(a, b, i as int);
    }
    list.truncate(i);
    assert(text::views(list@) =~= a.take(i as int));
}

/// The deepest directory, relative to the workspace root, that contains every given
/// source; empty for the workspace root itself.
///
/// Evaluating there lets a `global.json` in that subtree govern evaluation exactly as
/// it governs the tasks that run inside it.
pub fn common_source_prefix(sources: &[String]) -> (r: String)
    ensures
        r@ == text::joined(common_parts(text::views(sources@)), '/'),
{
    let ghost all = text::views(sources@);
    if sources.len() == 0 {
        return String::new();
    }
    let mut parts = source_parts_of(sources[0].as_str());
    assert(all.take(1).len() == 1);
    assert(all.take(1)[0] == sources@[0]@);
    let mut i: usize = 1;
    while i < sources.len()
        invariant
            all == text::views(sources@),
            1 <= i <= sources@.len(),
            text::views(parts@) == common_parts(all.take(i as int)),
        decreases sources@.len() - i,
    {
        let other = source_parts_of(sources[i].as_str());
        assert(all.take(i + 1).drop_last() =~= all.take(i as int));
        assert(all.take(i + 1).last() == sources@[i as int]@);
        keep_common(&mut parts, &other);
        i += 1;
    }
    assert(all.take(all.len() as int) =~= all);
    text::join(&parts, '/')
}

proof fn lemma_common_start(a: Seq<Seq<char>>, b: Seq<Seq<char>>, c: Seq<Seq<char>>)
    ensures
        common_start(a, b).is_prefix_of(a),
        common_start(a, b).is_prefix_of(b),
        c.is_prefix_of(a) && c.is_prefix_of(b) ==> c.is_prefix_of(common_start(a, b)),
    decreases a.len(),
{
    let both = common_start(a, b);
    if a.len() > 0 && b.len() > 0 && a[0] == b[0] {
        let x = a.drop_first();
        let y = b.drop_first();
        let z = if c.len() > 0 {
            c.drop_first()
        } else {
            c
        };
        lemma_common_start(x, y, z);
        let rest = common_start(x, y);
        assert(x.take(rest.len() as int) == rest);
        assert(y.take(rest.len() as int) == rest);
        assert(a.take(both.len() as int) =~= both);
        assert(b.take(both.len() as int) =~= both);
        if c.is_prefix_of(a) && c.is_prefix_of(b) && c.len() > 0 {
            assert(c =~= a.take(c.len() as int));
            assert(c =~= b.take(c.len() as int));
            assert(z =~= x.take(z.len() as int));
            assert(z =~= y.take(z.len() as int));
            assert(z == rest.take(z.len() as int));
            assert(c =~= both.take(c.len() as int));
        }
    } else {
        assert(a.take(0) =~= Seq::empty());
        assert(b.take(0) =~= Seq::empty());
    }
    if c.len() == 0 {
        assert(both.take(0) =~= c);
    } else if c.is_prefix_of(a) && c.is_prefix_of(b) {
        assert(c[0] == a.take(c.len() as int)[0]);
        assert(c[0] == b.take(c.len() as int)[0]);
    }
}

/// Evaluation runs in the deepest directory that contains every project: each source
/// lies in it, and so does it in every other directory that contains them all.
pub proof fn law_evaluation_directory_is_deepest(sources: Seq<Seq<char>>, other: Seq<Seq<char>>)
    requires
        sources.len() > 0,
    ensures
        forall|i: int|
            0 <= i < sources.len() ==> common_parts(sources).is_prefix_of(
                source_parts(#[trigger] sources[i]),
            ),
        (forall|i: int| 0 <= i < sources.len() ==> other.is_prefix_of(source_parts(#[trigger] sources[i])))
            ==> other.is_prefix_of(common_parts(sources)),
    decreases sources.len(),
{
    let all = common_parts(sources);
    if sources.len() == 1 {
        assert(all.take(all.len() as int) =~= all);
        assert(other.is_prefix_of(source_parts(sources[0])) ==> other.is_prefix_of(all));
    } else {
        let fewer = sources.drop_last();
        law_evaluation_directory_is_deepest(fewer, other);
        let some = common_parts(fewer);
        lemma_common_start(some, source_parts(sources.last()), other);
        assert forall|i: int| 0 <= i < sources.len() implies all.is_prefix_of(
            source_parts(#[trigger] sources[i]),
        ) by {
            if i < fewer.len() {
                assert(fewer[i] == sources[i]);
                let parts = source_parts(sources[i]);
                assert(some.is_prefix_of(parts));
                assert(some == parts.take(some.len() as int));
                assert(all == some.take(all.len() as int));
                assert(all =~= parts.take(all.len() as int));
            }
        }
        if forall|i: int|
            0 <= i < sources.len() ==> other.is_prefix_of(source_parts(#[trigger] sources[i])) {
            assert forall|i: int| 0 <= i < fewer.len() implies other.is_prefix_of(
                source_parts(#[trigger] fewer[i]),
            ) by {
                assert(fewer[i] == sources[i]);
            }
            assert(other.is_prefix_of(source_parts(sources[sources.len() - 1])));
        }
    }
}

/// The dotnet host reports that it has no SDK to run.
pub open spec fn reports_missing_sdk(message: Seq<char>) -> bool {
    ||| text::contains_text(message, "compatible .NET SDK was not found"@)
    ||| text::contains_text(message, "No .NET SDKs were found"@)
}

/// Whether an evaluation failed because the dotnet host has no SDK to run.
pub fn is_sdk_resolution_failure(message: &str) -> (r: bool)
    ensures
        r == reports_missing_sdk(message@),
{
    let chars = text::chars_of(message);
    let incompatible = text::chars_of("compatible .NET SDK was not found");
    let none = text::chars_of("No .NET SDKs were found");
    text::contains(&chars, &incompatible) || text::contains(&chars, &none)
}

/// The message for an SDK that is not there: the pin that cannot be served, and the
/// ways to fix it.
pub open spec fn missing_sdk(
    pin: Option<(Seq<char>, Seq<char>)>,
    message: Seq<char>,
) -> Seq<char> {
    (match pin {
        Some((file, version)) => "The .NET SDK pinned by <path>"@ + file + "</path> (<symbol>"@
            + version + "</symbol>) is not available"@,
        None => "No usable .NET SDK was found"@,
    })
        + ", so MSBuild evaluation cannot run.\n\nInstall that SDK, set <property>version</property> under <property>dotnet</property> in <file>.moon/toolchains.yml</file> to have moon install it, or point <property>dotnetRoot</property> at an SDK that satisfies the pin.\n\n"@
        + message
}

/// The message for an SDK that is not there. A missing SDK dooms every project, so
/// retrying each one would only repeat the host's output and leave the graph silently
/// empty: this is reported once, with the file and the version of the pin, if there is
/// one.
pub fn missing_sdk_message(pin: Option<(&str, &str)>, message: &str) -> (r: String)
    ensures
        r@ == missing_sdk(
            match pin {
                Some((file, version)) => Some((file@, version@)),
                None => None,
            },
            message@,
        ),
{
    let mut r: Vec<char> = Vec::new();
    match pin {
        Some((file, version)) => {
            text::push_text(&mut r, "The .NET SDK pinned by <path>");
            text::push_text(&mut r, file);
            text::push_text(&mut r, "</path> (<symbol>");
            text::push_text(&mut r, version);
            text::push_text(&mut r, "</symbol>) is not available");
            assert(r@ =~= "The .NET SDK pinned by <path>"@ + file@ + "</path> (<symbol>"@ + version@
                + "</symbol>) is not available"@);
        },
        None => {
            text::push_text(&mut r, "No usable .NET SDK was found");
            assert(r@ =~= "No usable .NET SDK was found"@);
        },
    }
    text::push_text(
        &mut r,
        ", so MSBuild evaluation cannot run.\n\nInstall that SDK, set <property>version</property> under <property>dotnet</property> in <file>.moon/toolchains.yml</file> to have moon install it, or point <property>dotnetRoot</property> at an SDK that satisfies the pin.\n\n",
    );
    text::push_text(&mut r, message);
    text::string_of(&r)
}

// ---------------------------------------------------------------------------
// What holds of the graph
// ---------------------------------------------------------------------------

/// No two of the dependencies are on the same project, and none is on `id`.
pub open spec fn is_dependency_list(dependencies: Seq<DependencyView>, id: Seq<char>) -> bool {
    &&& forall|i: int| 0 <= i < dependencies.len() ==> (#[trigger] dependencies[i]).id != id
    &&& forall|i: int, j: int|
        0 <= i < j < dependencies.len() ==> (#[trigger] dependencies[i]).id != (
        #[trigger] dependencies[j]).id
}

proof fn lemma_references_keep_list(
    dependencies: Seq<DependencyView>,
    index: IndexView,
    id: Seq<char>,
    references: Seq<Seq<char>>,
)
    requires
        is_dependency_list(dependencies, id),
    ensures
        is_dependency_list(with_references(dependencies, index, id, references), id),
    decreases references.len(),
{
    if references.len() > 0 {
        lemma_references_keep_list(dependencies, index, id, references.drop_last());
        let fewer = with_references(dependencies, index, id, references.drop_last());
        let more = with_references(dependencies, index, id, references);
        if more.len() > fewer.len() {
            assert(more.drop_last() =~= fewer);
            assert forall|i: int, j: int| 0 <= i < j < more.len() implies (#[trigger] more[i]).id
                != (#[trigger] more[j]).id by {
                assert(more[i] == fewer[i]);
                if j < fewer.len() {
                    assert(more[j] == fewer[j]);
                }
            }
        }
    }
}

proof fn lemma_files_keep_list(
    workspace: WorkspaceView,
    project: GraphProject,
    files: Seq<ProjectFile>,
)
    ensures
        is_dependency_list(
            with_evaluated_files(workspace, project, files).output.dependencies,
            project.id@,
        ),
    decreases files.len(),
{
    if files.len() > 0 {
        lemma_files_keep_list(workspace, project, files.drop_last());
        let file = files.last();
        if file.evaluation is Some {
            lemma_references_keep_list(
                with_evaluated_files(
                    workspace,
                    project,
                    files.drop_last(),
                ).output.dependencies,
                workspace.index,
                project.id@,
                file.evaluation->Some_0@.project_reference_paths(),
            );
        }
    }
}

/// No project depends on itself, or on another one twice.
pub proof fn law_dependencies_are_distinct(workspace: WorkspaceView, project: GraphProject)
    ensures
        is_dependency_list(
            extended_project(workspace, project).output.dependencies,
            project.id@,
        ),
{
    lemma_files_keep_list(workspace, project, project.files@);
}

/// Every dependency comes from a reference of an evaluated file that leads to that
/// project.
pub open spec fn comes_from_reference(
    workspace: WorkspaceView,
    files: Seq<ProjectFile>,
    dependency: DependencyView,
) -> bool {
    exists|i: int, reference: Seq<char>|
        0 <= i < files.len() && (#[trigger] files[i]).evaluation is Some
            && files[i].evaluation->Some_0@.project_reference_paths().contains(reference)
            && #[trigger] workspace.index.project_at(reference) == Some(dependency.id)
            && dependency.via == "project-reference "@ + shown_name(reference)
            && dependency.scope == DependencyScope::Production
}

proof fn lemma_references_origin(
    dependencies: Seq<DependencyView>,
    index: IndexView,
    id: Seq<char>,
    references: Seq<Seq<char>>,
    k: int,
)
    requires
        0 <= k < with_references(dependencies, index, id, references).len(),
    ensures
        ({
            let all = with_references(dependencies, index, id, references);
            ||| k < dependencies.len() && all[k] == dependencies[k]
            ||| exists|reference: Seq<char>| #[trigger]
                references.contains(reference) && index.project_at(reference) == Some(all[k].id)
                    && all[k].via == "project-reference "@ + shown_name(reference) && all[k].scope
                    == DependencyScope::Production
        }),
    decreases references.len(),
{
    if references.len() > 0 {
        let fewer = references.drop_last();
        let some = with_references(dependencies, index, id, fewer);
        let all = with_references(dependencies, index, id, references);
        if k < some.len() {
            lemma_references_origin(dependencies, index, id, fewer, k);
            assert(all[k] == some[k]);
            if !(k < dependencies.len() && some[k] == dependencies[k]) {
                let reference = choose|reference: Seq<char>| #[trigger]
                    fewer.contains(reference) && index.project_at(reference) == Some(some[k].id)
                        && some[k].via == "project-reference "@ + shown_name(reference)
                        && some[k].scope == DependencyScope::Production;
                let j = choose|j: int| 0 <= j < fewer.len() && fewer[j] == reference;
                assert(references[j] == reference);
                assert(references.contains(reference));
            }
        } else {
            assert(references.contains(references.last()));
        }
    }
}

proof fn lemma_files_origin(
    workspace: WorkspaceView,
    project: GraphProject,
    files: Seq<ProjectFile>,
    k: int,
)
    requires
        0 <= k < with_evaluated_files(workspace, project, files).output.dependencies.len(),
    ensures
        comes_from_reference(
            workspace,
            files,
            with_evaluated_files(workspace, project, files).output.dependencies[k],
        ),
    decreases files.len(),
{
    let all = with_evaluated_files(workspace, project, files).output.dependencies;
    let fewer = files.drop_last();
    let some = with_evaluated_files(workspace, project, fewer).output.dependencies;
    let file = files.last();
    let old = if all == some {
        true
    } else {
        let references = file.evaluation->Some_0@.project_reference_paths();
        lemma_references_origin(some, workspace.index, project.id@, references, k);
        k < some.len() && all[k] == some[k]
    };
    if old {
        lemma_files_origin(workspace, project, fewer, k);
        let (i, reference) = choose|i: int, reference: Seq<char>|
            0 <= i < fewer.len() && (#[trigger] fewer[i]).evaluation is Some
                && fewer[i].evaluation->Some_0@.project_reference_paths().contains(reference)
                && #[trigger] workspace.index.project_at(reference) == Some(some[k].id)
                && some[k].via == "project-reference "@ + shown_name(reference) && some[k].scope
                == DependencyScope::Production;
        assert(files[i] == fewer[i]);
        assert(workspace.index.project_at(reference) == Some(all[k].id));
    } else {
        let references = file.evaluation->Some_0@.project_reference_paths();
        let reference = choose|reference: Seq<char>| #[trigger]
            references.contains(reference) && workspace.index.project_at(reference) == Some(
                all[k].id,
            ) && all[k].via == "project-reference "@ + shown_name(reference) && all[k].scope
                == DependencyScope::Production;
        assert(files[files.len() - 1] == file);
        assert(workspace.index.project_at(reference) == Some(all[k].id));
    }
}

/// Dependencies are inferred from `ProjectReference` items and from nothing else; with
/// inference of dependencies switched off there are none.
pub proof fn law_dependencies_come_from_references(
    workspace: WorkspaceView,
    project: GraphProject,
    k: int,
)
    requires
        0 <= k < extended_project(workspace, project).output.dependencies.len(),
    ensures
        workspace.infer_dependencies,
        comes_from_reference(
            workspace,
            project.files@,
            extended_project(workspace, project).output.dependencies[k],
        ),
{
    lemma_files_origin(workspace, project, project.files@, k);
    if !workspace.infer_dependencies {
        lemma_no_dependencies(workspace, project, project.files@);
    }
}

proof fn lemma_no_dependencies(
    workspace: WorkspaceView,
    project: GraphProject,
    files: Seq<ProjectFile>,
)
    requires
        !workspace.infer_dependencies,
    ensures
        with_evaluated_files(workspace, project, files).output.dependencies.len() == 0,
    decreases files.len(),
{
    if files.len() > 0 {
        lemma_no_dependencies(workspace, project, files.drop_last());
    }
}

/// The assembly name of a file that was evaluated; empty for any other.
pub open spec fn assembly_name(file: ProjectFile) -> Seq<char> {
    if file.real_path is Some && file.evaluation is Some {
        file.evaluation->Some_0@.property("AssemblyName"@)
    } else {
        Seq::empty()
    }
}

proof fn lemma_files_alias(
    workspace: WorkspaceView,
    project: GraphProject,
    files: Seq<ProjectFile>,
)
    ensures
        match with_evaluated_files(workspace, project, files).output.alias {
            Some(alias) => alias.len() > 0 && exists|i: int|
                0 <= i < files.len() && assembly_name(#[trigger] files[i]) == alias && forall|j: int|
                    0 <= j < i ==> assembly_name(#[trigger] files[j]).len() == 0,
            None => forall|i: int|
                0 <= i < files.len() ==> assembly_name(#[trigger] files[i]).len() == 0,
        },
    decreases files.len(),
{
    if files.len() > 0 {
        let fewer = files.drop_last();
        lemma_files_alias(workspace, project, fewer);
        let last = files.len() - 1;
        assert(forall|i: int| 0 <= i < fewer.len() ==> #[trigger] fewer[i] == files[i]);
        assert(files[last] == files.last());
        match with_evaluated_files(workspace, project, fewer).output.alias {
            Some(alias) => {
                let i = choose|i: int|
                    0 <= i < fewer.len() && assembly_name(#[trigger] fewer[i]) == alias
                        && forall|j: int|
                        0 <= j < i ==> assembly_name(#[trigger] fewer[j]).len() == 0;
                assert(assembly_name(files[i]) == alias);
                assert forall|j: int| 0 <= j < i implies assembly_name(
                    #[trigger] files[j],
                ).len() == 0 by {
                    assert(fewer[j] == files[j]);
                }
            },
            None => {
                assert forall|j: int| 0 <= j < last implies assembly_name(
                    #[trigger] files[j],
                ).len() == 0 by {
                    assert(fewer[j] == files[j]);
                }
                if assembly_name(files[last]).len() > 0 {
                    assert(with_evaluated_files(workspace, project, files).output.alias == Some(
                        assembly_name(files[last]),
                    ));
                }
            },
        }
    }
}

/// A project gains the assembly name of the first of its files that has one as an alias,
/// and no other.
pub proof fn law_alias_is_the_first_assembly_name(workspace: WorkspaceView, project: GraphProject)
    ensures
        match extended_project(workspace, project).output.alias {
            Some(alias) => alias.len() > 0 && exists|i: int|
                0 <= i < project.files@.len() && assembly_name(#[trigger] project.files@[i]) == alias
                    && forall|j: int|
                    0 <= j < i ==> assembly_name(#[trigger] project.files@[j]).len() == 0,
            None => forall|i: int|
                0 <= i < project.files@.len() ==> assembly_name(
                    #[trigger] project.files@[i],
                ).len() == 0,
        },
{
    lemma_files_alias(workspace, project, project.files@);
}

/// Every file of the list was evaluated.
pub open spec fn all_evaluated(files: Seq<ProjectFile>) -> bool {
    forall|i: int|
        0 <= i < files.len() ==> (#[trigger] files[i]).real_path is Some
            && files[i].evaluation is Some
}

proof fn lemma_evaluated_all(
    workspace: WorkspaceView,
    project: GraphProject,
    files: Seq<ProjectFile>,
)
    ensures
        with_evaluated_files(workspace, project, files).evaluated_all == all_evaluated(files),
    decreases files.len(),
{
    if files.len() > 0 {
        let fewer = files.drop_last();
        lemma_evaluated_all(workspace, project, fewer);
        assert(forall|i: int| 0 <= i < fewer.len() ==> #[trigger] fewer[i] == files[i]);
        if all_evaluated(fewer) && files.last().real_path is Some && files.last().evaluation is Some {
            assert forall|i: int| 0 <= i < files.len() implies (#[trigger] files[i]).real_path is Some
                && files[i].evaluation is Some by {
                if i < fewer.len() {
                    assert(fewer[i] == files[i]);
                }
            }
        }
        if all_evaluated(files) {
            assert forall|i: int| 0 <= i < fewer.len() implies (#[trigger] fewer[i]).real_path is Some
                && fewer[i].evaluation is Some by {
                assert(files[i].real_path is Some);
            }
            assert(files[files.len() - 1].real_path is Some);
        }
    }
}

/// A package set is handed to task hashing only where every project file was evaluated
/// and no lock file makes it needless: a partial set is never cached.
pub proof fn law_only_complete_package_sets_are_cached(
    workspace: WorkspaceView,
    projects: Seq<GraphProject>,
    id: Seq<char>,
)
    requires
        with_projects(workspace, projects).package_sets.contains_key(id),
    ensures
        exists|i: int|
            0 <= i < projects.len() && (#[trigger] projects[i]).id@ == id && all_evaluated(
                projects[i].files@,
            ) && !projects[i].has_lock_file && with_projects(workspace, projects).package_sets[id]
                == extended_project(workspace, projects[i]).packages,
    decreases projects.len(),
{
    let fewer = projects.drop_last();
    let last = projects.last();
    lemma_evaluated_all(workspace, last, last.files@);
    if last.id@ == id && extended_project(workspace, last).evaluated_all && !last.has_lock_file {
        assert(projects[projects.len() - 1] == last);
    } else {
        law_only_complete_package_sets_are_cached(workspace, fewer, id);
        let i = choose|i: int|
            0 <= i < fewer.len() && (#[trigger] fewer[i]).id@ == id && all_evaluated(
                fewer[i].files@,
            ) && !fewer[i].has_lock_file && with_projects(workspace, fewer).package_sets[id]
                == extended_project(workspace, fewer[i]).packages;
        assert(projects[i] == fewer[i]);
    }
}

/// Two projects are the same but for what their files were evaluated to.
pub open spec fn same_but_for_evaluations(a: GraphProject, b: GraphProject) -> bool {
    &&& a.id@ == b.id@
    &&& a.source@ == b.source@
    &&& a.files@.len() == b.files@.len()
    &&& forall|i: int|
        0 <= i < a.files@.len() ==> (#[trigger] a.files@[i]).name@ == b.files@[i].name@
            && same_real_path(a.files@[i], b.files@[i])
}

/// Two files have the same real path, or none.
pub open spec fn same_real_path(a: ProjectFile, b: ProjectFile) -> bool {
    match (a.real_path, b.real_path) {
        (Some(x), Some(y)) => x@ == y@,
        (None, None) => true,
        _ => false,
    }
}

proof fn lemma_same_files_same_index(
    index: IndexView,
    id: Seq<char>,
    source: Seq<char>,
    a: Seq<ProjectFile>,
    b: Seq<ProjectFile>,
)
    requires
        a.len() == b.len(),
        forall|i: int|
            0 <= i < a.len() ==> (#[trigger] a[i]).name@ == b[i].name@ && same_real_path(
                a[i],
                b[i],
            ),
    ensures
        with_files(index, id, source, a) == with_files(index, id, source, b),
    decreases a.len(),
{
    if a.len() > 0 {
        let x = a.drop_last();
        let y = b.drop_last();
        assert forall|i: int| 0 <= i < x.len() implies (#[trigger] x[i]).name@ == y[i].name@
            && same_real_path(x[i], y[i]) by {
            assert(a[i].name@ == b[i].name@);
        }
        lemma_same_files_same_index(index, id, source, x, y);
        assert(a[a.len() - 1].name@ == b[b.len() - 1].name@);
    }
}

proof fn lemma_same_index(a: Seq<GraphProject>, b: Seq<GraphProject>)
    requires
        a.len() == b.len(),
        forall|i: int| 0 <= i < a.len() ==> same_but_for_evaluations(#[trigger] a[i], b[i]),
    ensures
        index_of(a) == index_of(b),
    decreases a.len(),
{
    if a.len() > 0 {
        let x = a.drop_last();
        let y = b.drop_last();
        assert forall|i: int| 0 <= i < x.len() implies same_but_for_evaluations(
            #[trigger] x[i],
            y[i],
        ) by {
            assert(same_but_for_evaluations(a[i], b[i]));
        }
        lemma_same_index(x, y);
        let p = a[a.len() - 1];
        let q = b[b.len() - 1];
        assert(same_but_for_evaluations(p, q));
        lemma_same_files_same_index(index_of(x), p.id@, p.source@, p.files@, q.files@);
    }
}

/// A broken project does not take down the graph: what is contributed to a project does
/// not depend on how the evaluation of any other project went.
pub proof fn law_broken_project_leaves_others_alone(
    config: DotnetToolchainConfig,
    projects: Seq<GraphProject>,
    others: Seq<GraphProject>,
    reserved_ids: Seq<Seq<char>>,
    workspace_dir: Seq<char>,
    i: int,
)
    requires
        projects.len() == others.len(),
        forall|j: int|
            0 <= j < projects.len() ==> same_but_for_evaluations(
                #[trigger] projects[j],
                others[j],
            ),
        0 <= i < projects.len(),
        projects[i] == others[i],
    ensures
        extended_project(
            workspace_of(config, projects, reserved_ids, workspace_dir),
            projects[i],
        ) == extended_project(
            workspace_of(config, others, reserved_ids, workspace_dir),
            others[i],
        ),
{
    lemma_same_index(projects, others);
}

/// How many of the files have that suffix.
pub open spec fn files_with_suffix(
    source: Seq<char>,
    files: Seq<ProjectFile>,
    suffix: Seq<char>,
) -> nat
    decreases files.len(),
{
    if files.len() == 0 {
        0
    } else {
        files_with_suffix(source, files.drop_last(), suffix) + (if file_suffix(
            source,
            files.last().name@,
        ) == suffix {
            1nat
        } else {
            0nat
        })
    }
}

/// How many of the files of all projects have that suffix.
pub open spec fn all_files_with_suffix(projects: Seq<GraphProject>, suffix: Seq<char>) -> nat
    decreases projects.len(),
{
    if projects.len() == 0 {
        0
    } else {
        all_files_with_suffix(projects.drop_last(), suffix) + files_with_suffix(
            projects.last().source@,
            projects.last().files@,
            suffix,
        )
    }
}

/// The index counts: a suffix of one file belongs to a project, a suffix of more to none.
pub open spec fn counts(index: IndexView, suffix: Seq<char>, n: nat) -> bool {
    &&& index.suffixes.contains_key(suffix) <==> n > 0
    &&& n > 0 ==> (index.suffixes[suffix] is Some <==> n == 1)
}

proof fn lemma_files_count(
    index: IndexView,
    id: Seq<char>,
    source: Seq<char>,
    files: Seq<ProjectFile>,
    suffix: Seq<char>,
    n: nat,
)
    requires
        counts(index, suffix, n),
    ensures
        counts(
            with_files(index, id, source, files),
            suffix,
            n + files_with_suffix(source, files, suffix),
        ),
    decreases files.len(),
{
    if files.len() > 0 {
        lemma_files_count(index, id, source, files.drop_last(), suffix, n);
    }
}

/// A reference is matched by a workspace-relative suffix only where that suffix is
/// unique: one that several project files share leads nowhere.
pub proof fn law_shared_suffixes_lead_nowhere(projects: Seq<GraphProject>, suffix: Seq<char>)
    ensures
        counts(index_of(projects), suffix, all_files_with_suffix(projects, suffix)),
    decreases projects.len(),
{
    if projects.len() > 0 {
        law_shared_suffixes_lead_nowhere(projects.drop_last(), suffix);
        lemma_files_count(
            index_of(projects.drop_last()),
            projects.last().id@,
            projects.last().source@,
            projects.last().files@,
            suffix,
            all_files_with_suffix(projects.drop_last(), suffix),
        );
    }
}

/// A reference that no real path is known for leads to the project of a suffix only
/// where no other suffix matches. Where the paths of two project files end alike, so
/// that the reference ends with the suffixes of both, it leads to neither.
pub proof fn law_competing_suffixes_lead_nowhere(
    index: IndexView,
    reference: Seq<char>,
    suffix: Seq<char>,
    other: Seq<char>,
)
    requires
        !index.real_paths.contains_key(msbuild::path_key(reference)),
        is_match(index.suffixes, msbuild::path_key(reference), suffix),
    ensures
        is_match(index.suffixes, msbuild::path_key(reference), other) && other != suffix
            ==> index.project_at(reference) is None,
        is_only_match(index.suffixes, msbuild::path_key(reference), suffix)
            ==> index.project_at(reference) == index.suffixes[suffix],
{
    let key = msbuild::path_key(reference);
    if is_only_match(index.suffixes, key, suffix) {
        let named = choose|suffix: Seq<char>| #[trigger] is_only_match(index.suffixes, key, suffix);
        assert(is_only_match(index.suffixes, key, named));
        assert(is_match(index.suffixes, key, named));
        assert(named == suffix);
    }
}

/// Some file of the list has a real path with that key.
pub open spec fn has_path_key(files: Seq<ProjectFile>, key: Seq<char>) -> bool {
    exists|i: int|
        0 <= i < files.len() && (#[trigger] files[i]).real_path is Some && msbuild::path_key(
            files[i].real_path->Some_0@,
        ) == key
}

proof fn lemma_files_at_key(
    index: IndexView,
    id: Seq<char>,
    source: Seq<char>,
    files: Seq<ProjectFile>,
    key: Seq<char>,
)
    ensures
        ({
            let now = with_files(index, id, source, files).real_paths;
            if has_path_key(files, key) {
                now.contains_key(key) && now[key] == id
            } else {
                (now.contains_key(key) <==> index.real_paths.contains_key(key)) && (
                now.contains_key(key) ==> now[key] == index.real_paths[key])
            }
        }),
    decreases files.len(),
{
    if files.len() > 0 {
        let fewer = files.drop_last();
        lemma_files_at_key(index, id, source, fewer, key);
        let last = files.last();
        if has_path_key(fewer, key) {
            let i = choose|i: int|
                0 <= i < fewer.len() && (#[trigger] fewer[i]).real_path is Some
                    && msbuild::path_key(fewer[i].real_path->Some_0@) == key;
            assert(files[i] == fewer[i]);
            assert(has_path_key(files, key));
        }
        if last.real_path is Some && msbuild::path_key(last.real_path->Some_0@) == key {
            assert(files[files.len() - 1] == last);
            assert(has_path_key(files, key));
        } else if has_path_key(files, key) {
            let i = choose|i: int|
                0 <= i < files.len() && (#[trigger] files[i]).real_path is Some
                    && msbuild::path_key(files[i].real_path->Some_0@) == key;
            assert(i < fewer.len());
            assert(fewer[i] == files[i]);
            assert(has_path_key(fewer, key));
        }
    }
}

proof fn lemma_projects_at_key(projects: Seq<GraphProject>, id: Seq<char>, key: Seq<char>)
    requires
        forall|j: int|
            0 <= j < projects.len() && has_path_key((#[trigger] projects[j]).files@, key)
                ==> projects[j].id@ == id,
    ensures
        ({
            let now = index_of(projects).real_paths;
            &&& now.contains_key(key) ==> now[key] == id
            &&& now.contains_key(key) <==> exists|j: int|
                0 <= j < projects.len() && has_path_key((#[trigger] projects[j]).files@, key)
        }),
    decreases projects.len(),
{
    if projects.len() > 0 {
        let fewer = projects.drop_last();
        let last = projects.last();
        assert forall|j: int|
            0 <= j < fewer.len() && has_path_key((#[trigger] fewer[j]).files@, key) implies fewer[j].id@
            == id by {
            assert(projects[j] == fewer[j]);
        }
        lemma_projects_at_key(fewer, id, key);
        lemma_files_at_key(index_of(fewer), last.id@, last.source@, last.files@, key);
        assert(projects[projects.len() - 1] == last);
        if index_of(fewer).real_paths.contains_key(key) {
            let j = choose|j: int|
                0 <= j < fewer.len() && has_path_key((#[trigger] fewer[j]).files@, key);
            assert(projects[j] == fewer[j]);
            assert(has_path_key(projects[j].files@, key));
        }
        if exists|j: int|
            0 <= j < projects.len() && has_path_key((#[trigger] projects[j]).files@, key) {
            let j = choose|j: int|
                0 <= j < projects.len() && has_path_key((#[trigger] projects[j]).files@, key);
            if j < fewer.len() {
                assert(fewer[j] == projects[j]);
                assert(has_path_key(fewer[j].files@, key));
            }
        }
    }
}

/// A reference to a project file, in whatever letter case and with whatever slashes,
/// leads to the project that the file belongs to, as long as the file belongs to one
/// project only.
pub proof fn law_references_lead_to_their_project(
    projects: Seq<GraphProject>,
    i: int,
    file: int,
    reference: Seq<char>,
)
    requires
        0 <= i < projects.len(),
        0 <= file < projects[i].files@.len(),
        projects[i].files@[file].real_path is Some,
        msbuild::path_key(projects[i].files@[file].real_path->Some_0@) == msbuild::path_key(
            reference,
        ),
        forall|j: int|
            0 <= j < projects.len() && has_path_key(
                (#[trigger] projects[j]).files@,
                msbuild::path_key(reference),
            ) ==> projects[j].id@ == projects[i].id@,
    ensures
        index_of(projects).project_at(reference) == Some(projects[i].id@),
{
    let key = msbuild::path_key(reference);
    assert(projects[i].files@[file].real_path is Some);
    assert(has_path_key(projects[i].files@, key));
    lemma_projects_at_key(projects, projects[i].id@, key);
}

// ---------------------------------------------------------------------------
// What is contributed
// ---------------------------------------------------------------------------

/// The file has a real path and was evaluated.
pub open spec fn is_evaluated(file: ProjectFile) -> bool {
    file.real_path is Some && file.evaluation is Some
}

proof fn lemma_references_keep_dependencies(
    dependencies: Seq<DependencyView>,
    index: IndexView,
    id: Seq<char>,
    references: Seq<Seq<char>>,
    other: Seq<char>,
)
    requires
        depends_on(dependencies, other),
    ensures
        depends_on(with_references(dependencies, index, id, references), other),
    decreases references.len(),
{
    if references.len() > 0 {
        let fewer = with_references(dependencies, index, id, references.drop_last());
        let more = with_references(dependencies, index, id, references);
        lemma_references_keep_dependencies(dependencies, index, id, references.drop_last(), other);
        let k = choose|k: int| 0 <= k < fewer.len() && (#[trigger] fewer[k]).id == other;
        assert(more[k].id == other);
    }
}

proof fn lemma_references_add_dependencies(
    dependencies: Seq<DependencyView>,
    index: IndexView,
    id: Seq<char>,
    references: Seq<Seq<char>>,
    r: int,
)
    requires
        0 <= r < references.len(),
        index.project_at(references[r]) is Some,
        index.project_at(references[r])->Some_0 != id,
    ensures
        depends_on(
            with_references(dependencies, index, id, references),
            index.project_at(references[r])->Some_0,
        ),
    decreases references.len(),
{
    let other = index.project_at(references[r])->Some_0;
    let fewer = with_references(dependencies, index, id, references.drop_last());
    let more = with_references(dependencies, index, id, references);
    if r < references.len() - 1 {
        lemma_references_add_dependencies(dependencies, index, id, references.drop_last(), r);
        let k = choose|k: int| 0 <= k < fewer.len() && (#[trigger] fewer[k]).id == other;
        assert(more[k].id == other);
    } else if depends_on(fewer, other) {
        let k = choose|k: int| 0 <= k < fewer.len() && (#[trigger] fewer[k]).id == other;
        assert(more[k].id == other);
    } else {
        assert(more[fewer.len() as int].id == other);
    }
}

proof fn lemma_files_add_dependencies(
    workspace: WorkspaceView,
    project: GraphProject,
    files: Seq<ProjectFile>,
    f: int,
    r: int,
)
    requires
        workspace.infer_dependencies,
        0 <= f < files.len(),
        is_evaluated(files[f]),
        0 <= r < files[f].evaluation->Some_0@.project_reference_paths().len(),
        workspace.index.project_at(
            files[f].evaluation->Some_0@.project_reference_paths()[r],
        ) is Some,
        workspace.index.project_at(
            files[f].evaluation->Some_0@.project_reference_paths()[r],
        )->Some_0 != project.id@,
    ensures
        depends_on(
            with_evaluated_files(workspace, project, files).output.dependencies,
            workspace.index.project_at(
                files[f].evaluation->Some_0@.project_reference_paths()[r],
            )->Some_0,
        ),
    decreases files.len(),
{
    let references = files[f].evaluation->Some_0@.project_reference_paths();
    let other = workspace.index.project_at(references[r])->Some_0;
    let fewer = files.drop_last();
    let some = with_evaluated_files(workspace, project, fewer).output.dependencies;
    if f < files.len() - 1 {
        assert(fewer[f] == files[f]);
        lemma_files_add_dependencies(workspace, project, fewer, f, r);
        let last = files.last();
        if is_evaluated(last) {
            lemma_references_keep_dependencies(
                some,
                workspace.index,
                project.id@,
                last.evaluation->Some_0@.project_reference_paths(),
                other,
            );
        }
    } else {
        lemma_references_add_dependencies(some, workspace.index, project.id@, references, r);
    }
}

/// Every reference of every evaluated file that leads to another project makes that project
/// a dependency.
pub proof fn law_every_reference_makes_a_dependency(
    workspace: WorkspaceView,
    project: GraphProject,
    f: int,
    r: int,
)
    requires
        workspace.infer_dependencies,
        0 <= f < project.files@.len(),
        project.files@[f].real_path is Some,
        project.files@[f].evaluation is Some,
        0 <= r < project.files@[f].evaluation->Some_0@.project_reference_paths().len(),
    ensures
        ({
            let reference = project.files@[f].evaluation->Some_0@.project_reference_paths()[r];
            let dependencies = extended_project(workspace, project).output.dependencies;
            match workspace.index.project_at(reference) {
                Some(other) => other != project.id@ ==> exists|k: int|
                    0 <= k < dependencies.len() && (#[trigger] dependencies[k]).id == other,
                None => true,
            }
        }),
{
    let reference = project.files@[f].evaluation->Some_0@.project_reference_paths()[r];
    match workspace.index.project_at(reference) {
        Some(other) => {
            if other != project.id@ {
                lemma_files_add_dependencies(workspace, project, project.files@, f, r);
            }
        },
        None => {},
    }
}

/// References that lead to different projects make them dependencies in the order in which
/// they are given, each called by the name of its project file.
pub proof fn law_dependencies_follow_the_references(
    dependencies: Seq<DependencyView>,
    index: IndexView,
    id: Seq<char>,
    references: Seq<Seq<char>>,
    others: Seq<Seq<char>>,
)
    requires
        references.len() == others.len(),
        forall|i: int|
            0 <= i < references.len() ==> index.project_at(#[trigger] references[i]) == Some(
                others[i],
            ),
        forall|i: int| 0 <= i < others.len() ==> #[trigger] others[i] != id && !depends_on(
            dependencies,
            others[i],
        ),
        forall|i: int, j: int| 0 <= i < j < others.len() ==> others[i] != others[j],
    ensures
        ({
            let all = with_references(dependencies, index, id, references);
            let n = dependencies.len();
            &&& all.len() == n + references.len()
            &&& forall|i: int| 0 <= i < n ==> #[trigger] all[i] == dependencies[i]
            &&& forall|i: int|
                n <= i < all.len() ==> (#[trigger] all[i]).id == others[i - n] && all[i].scope
                    == DependencyScope::Production && all[i].via == "project-reference "@
                    + shown_name(references[i - n])
        }),
    decreases references.len(),
{
    if references.len() > 0 {
        let fewer = references.drop_last();
        let rest = others.drop_last();
        let last = references.len() - 1;
        assert forall|i: int| 0 <= i < fewer.len() implies index.project_at(#[trigger] fewer[i])
            == Some(rest[i]) by {
            assert(fewer[i] == references[i]);
        }
        assert forall|i: int| 0 <= i < rest.len() implies #[trigger] rest[i] != id && !depends_on(
            dependencies,
            rest[i],
        ) by {
            assert(rest[i] == others[i]);
        }
        law_dependencies_follow_the_references(dependencies, index, id, fewer, rest);
        let some = with_references(dependencies, index, id, fewer);
        let other = others[last];
        assert(index.project_at(references[last]) == Some(other));
        if depends_on(some, other) {
            let k = choose|k: int| 0 <= k < some.len() && (#[trigger] some[k]).id == other;
            if k < dependencies.len() {
                assert(dependencies[k].id == other);
                assert(depends_on(dependencies, others[last]));
            } else {
                assert(some[k].id == rest[k - dependencies.len()]);
                assert(others[k - dependencies.len()] == others[last]);
            }
        }
    }
}

/// A dependency is called by the last part of the path that references it.
pub proof fn law_references_are_shown_by_file(dir: Seq<char>, file: Seq<char>)
    requires
        file.len() > 0,
        file != "."@,
        file != ".."@,
        text::is_free_of(file, '/'),
    ensures
        shown_name(dir.push('/') + file) == file,
        shown_name(file) == file,
{
    reveal(Seq::filter);
    let chosen = |piece: Seq<char>| is_named(piece);
    text::lemma_split_after(dir, file, '/');
    text::lemma_split_whole(file, '/');
    let pieces = text::split(dir, '/').push(file);
    assert(pieces.drop_last() =~= text::split(dir, '/'));
    assert(pieces.filter(chosen).last() == file);
    assert(seq![file].drop_last() =~= Seq::empty());
    assert(seq![file].filter(chosen).last() == file);
}

/// The last of the files that was evaluated and references the package.
pub open spec fn is_last_reference(files: Seq<ProjectFile>, i: int, name: Seq<char>) -> bool {
    &&& 0 <= i < files.len()
    &&& is_evaluated(files[i])
    &&& files[i].evaluation->Some_0@.package_references().contains_key(name)
    &&& forall|j: int|
        i < j < files.len() ==> !(is_evaluated(#[trigger] files[j])
            && files[j].evaluation->Some_0@.package_references().contains_key(name))
}

proof fn lemma_files_packages(
    workspace: WorkspaceView,
    project: GraphProject,
    files: Seq<ProjectFile>,
    name: Seq<char>,
)
    ensures
        ({
            let packages = with_evaluated_files(workspace, project, files).packages;
            &&& packages.contains_key(name) <==> exists|i: int|
                0 <= i < files.len() && is_evaluated(#[trigger] files[i])
                    && files[i].evaluation->Some_0@.package_references().contains_key(name)
            &&& forall|i: int| #[trigger]
                is_last_reference(files, i, name) ==> packages[name]
                    == files[i].evaluation->Some_0@.package_references()[name]
        }),
    decreases files.len(),
{
    if files.len() > 0 {
        let fewer = files.drop_last();
        let last = files.len() - 1;
        let some = with_evaluated_files(workspace, project, fewer).packages;
        let all = with_evaluated_files(workspace, project, files).packages;
        lemma_files_packages(workspace, project, fewer, name);
        assert forall|i: int| 0 <= i < fewer.len() implies #[trigger] fewer[i] == files[i] by {}
        if some.contains_key(name) {
            let i = choose|i: int|
                0 <= i < fewer.len() && is_evaluated(#[trigger] fewer[i])
                    && fewer[i].evaluation->Some_0@.package_references().contains_key(name);
            assert(is_evaluated(files[i]));
        }
        if exists|i: int|
            0 <= i < files.len() && is_evaluated(#[trigger] files[i])
                && files[i].evaluation->Some_0@.package_references().contains_key(name) {
            let i = choose|i: int|
                0 <= i < files.len() && is_evaluated(#[trigger] files[i])
                    && files[i].evaluation->Some_0@.package_references().contains_key(name);
            if i < last {
                assert(is_evaluated(fewer[i]));
            }
        }
        assert forall|i: int| #[trigger] is_last_reference(files, i, name) implies all[name]
            == files[i].evaluation->Some_0@.package_references()[name] by {
            if i < last {
                assert(!(is_evaluated(files[last])
                    && files[last].evaluation->Some_0@.package_references().contains_key(name)));
                assert forall|j: int| i < j < fewer.len() implies !(is_evaluated(
                    #[trigger] fewer[j],
                ) && fewer[j].evaluation->Some_0@.package_references().contains_key(name)) by {
                    assert(fewer[j] == files[j]);
                }
                assert(is_last_reference(fewer, i, name));
                assert(some.contains_key(name));
            }
        }
    }
}

/// The package set of a project holds every package that one of its evaluated files
/// references, and no other, with the version of the last such file.
pub proof fn law_package_sets_are_complete(
    workspace: WorkspaceView,
    project: GraphProject,
    name: Seq<char>,
)
    ensures
        ({
            let packages = extended_project(workspace, project).packages;
            let files = project.files@;
            &&& packages.contains_key(name) <==> exists|i: int|
                0 <= i < files.len() && is_evaluated(#[trigger] files[i])
                    && files[i].evaluation->Some_0@.package_references().contains_key(name)
            &&& forall|i: int| #[trigger]
                is_last_reference(files, i, name) ==> packages[name]
                    == files[i].evaluation->Some_0@.package_references()[name]
        }),
{
    lemma_files_packages(workspace, project, project.files@, name);
}

/// The tasks that inference gives one file of a project: the file is named where it is not
/// the only one.
pub open spec fn tasks_of_file(
    workspace: WorkspaceView,
    project: GraphProject,
    file: ProjectFile,
) -> Result<Map<Seq<char>, TaskView>, TaskFault> {
    infer_tasks::inferred_tasks(
        workspace.infer_tasks,
        workspace.reserved_ids,
        InferView {
            evaluation: file.evaluation->Some_0@,
            file: if project.files@.len() > 1 {
                Some(file.name@)
            } else {
                None
            },
            project_dir: file.project_dir@,
            workspace_dir: workspace.workspace_dir,
            test_platform_runner: project.test_platform_runner,
        },
    )
}

/// The file was evaluated, and inference gives it the task.
pub open spec fn gives_task(
    workspace: WorkspaceView,
    project: GraphProject,
    file: ProjectFile,
    id: Seq<char>,
) -> bool {
    is_evaluated(file) && tasks_of_file(workspace, project, file) is Ok && tasks_of_file(
        workspace,
        project,
        file,
    )->Ok_0.contains_key(id)
}

/// The first of the files that gives the task.
pub open spec fn is_first_giver(
    workspace: WorkspaceView,
    project: GraphProject,
    files: Seq<ProjectFile>,
    i: int,
    id: Seq<char>,
) -> bool {
    &&& 0 <= i < files.len()
    &&& gives_task(workspace, project, files[i], id)
    &&& forall|j: int| 0 <= j < i ==> !gives_task(workspace, project, #[trigger] files[j], id)
}

proof fn lemma_files_tasks(
    workspace: WorkspaceView,
    project: GraphProject,
    files: Seq<ProjectFile>,
    id: Seq<char>,
)
    requires
        workspace.infer_tasks.is_enabled(),
    ensures
        ({
            let tasks = with_evaluated_files(workspace, project, files).output.tasks;
            &&& tasks.contains_key(id) <==> exists|i: int|
                0 <= i < files.len() && gives_task(workspace, project, #[trigger] files[i], id)
            &&& forall|i: int| #[trigger]
                is_first_giver(workspace, project, files, i, id) ==> tasks[id] == tasks_of_file(
                    workspace,
                    project,
                    files[i],
                )->Ok_0[id]
        }),
    decreases files.len(),
{
    if files.len() > 0 {
        let fewer = files.drop_last();
        let last = files.len() - 1;
        let some = with_evaluated_files(workspace, project, fewer).output.tasks;
        let all = with_evaluated_files(workspace, project, files).output.tasks;
        lemma_files_tasks(workspace, project, fewer, id);
        assert(tasks_of_file(workspace, project, files[last]) == infer_tasks::inferred_tasks(
            workspace.infer_tasks,
            workspace.reserved_ids,
            infer_view(workspace, project, files[last]),
        ));
        assert forall|i: int| 0 <= i < fewer.len() implies #[trigger] fewer[i] == files[i] by {}
        if some.contains_key(id) {
            let i = choose|i: int|
                0 <= i < fewer.len() && gives_task(workspace, project, #[trigger] fewer[i], id);
            assert(gives_task(workspace, project, files[i], id));
        }
        if exists|i: int|
            0 <= i < files.len() && gives_task(workspace, project, #[trigger] files[i], id) {
            let i = choose|i: int|
                0 <= i < files.len() && gives_task(workspace, project, #[trigger] files[i], id);
            if i < last {
                assert(gives_task(workspace, project, fewer[i], id));
            }
        }
        assert forall|i: int| #[trigger]
            is_first_giver(workspace, project, files, i, id) implies all[id] == tasks_of_file(
            workspace,
            project,
            files[i],
        )->Ok_0[id] by {
            if i < last {
                assert forall|j: int| 0 <= j < i implies !gives_task(
                    workspace,
                    project,
                    #[trigger] fewer[j],
                    id,
                ) by {
                    assert(fewer[j] == files[j]);
                }
                assert(is_first_giver(workspace, project, fewer, i, id));
                assert(some.contains_key(id));
            } else {
                assert forall|j: int| 0 <= j < fewer.len() implies !gives_task(
                    workspace,
                    project,
                    #[trigger] fewer[j],
                    id,
                ) by {
                    assert(fewer[j] == files[j]);
                }
                assert(!some.contains_key(id));
            }
        }
    }
}

/// A project gets each task that inference gives one of its evaluated files, from the first
/// file that gives it, and no other.
pub proof fn law_tasks_come_from_the_first_file(
    workspace: WorkspaceView,
    project: GraphProject,
    id: Seq<char>,
)
    requires
        workspace.infer_tasks.is_enabled(),
    ensures
        ({
            let tasks = extended_project(workspace, project).output.tasks;
            let files = project.files@;
            &&& tasks.contains_key(id) <==> exists|i: int|
                0 <= i < files.len() && gives_task(workspace, project, #[trigger] files[i], id)
            &&& forall|i: int| #[trigger]
                is_first_giver(workspace, project, files, i, id) ==> tasks[id] == tasks_of_file(
                    workspace,
                    project,
                    files[i],
                )->Ok_0[id]
        }),
{
    lemma_files_tasks(workspace, project, project.files@, id);
}

proof fn lemma_files_inputs(
    workspace: WorkspaceView,
    project: GraphProject,
    files: Seq<ProjectFile>,
    path: Seq<char>,
)
    ensures
        with_evaluated_files(workspace, project, files).input_files.contains(path) <==> exists|
            i: int,
        |
            0 <= i < files.len() && is_evaluated(#[trigger] files[i]) && files[i].virtual_path is Some
                && files[i].virtual_path->Some_0@ == path,
    decreases files.len(),
{
    if files.len() > 0 {
        let fewer = files.drop_last();
        let last = files.len() - 1;
        let some = with_evaluated_files(workspace, project, fewer).input_files;
        let all = with_evaluated_files(workspace, project, files).input_files;
        lemma_files_inputs(workspace, project, fewer, path);
        assert forall|i: int| 0 <= i < fewer.len() implies #[trigger] fewer[i] == files[i] by {}
        if some.contains(path) {
            let i = choose|i: int|
                0 <= i < fewer.len() && is_evaluated(#[trigger] fewer[i])
                    && fewer[i].virtual_path is Some && fewer[i].virtual_path->Some_0@ == path;
            assert(is_evaluated(files[i]));
            let k = choose|k: int| 0 <= k < some.len() && some[k] == path;
            assert(all[k] == path);
        }
        if all.contains(path) {
            let k = choose|k: int| 0 <= k < all.len() && all[k] == path;
            if k < some.len() {
                assert(some[k] == path);
            } else {
                assert(is_evaluated(files[last]));
            }
        }
        if exists|i: int|
            0 <= i < files.len() && is_evaluated(#[trigger] files[i]) && files[i].virtual_path is Some
                && files[i].virtual_path->Some_0@ == path {
            let i = choose|i: int|
                0 <= i < files.len() && is_evaluated(#[trigger] files[i])
                    && files[i].virtual_path is Some && files[i].virtual_path->Some_0@ == path;
            if i < last {
                assert(is_evaluated(fewer[i]));
            } else {
                assert(all[some.len() as int] == path);
            }
        }
    }
}

/// Every evaluated file of every project is an input of the graph, and nothing else is.
pub proof fn law_evaluated_files_are_inputs(
    workspace: WorkspaceView,
    projects: Seq<GraphProject>,
    path: Seq<char>,
)
    ensures
        with_projects(workspace, projects).input_files.contains(path) <==> exists|p: int, f: int|
            0 <= p < projects.len() && 0 <= f < projects[p].files@.len() && is_evaluated(
                #[trigger] projects[p].files@[f],
            ) && projects[p].files@[f].virtual_path is Some
                && projects[p].files@[f].virtual_path->Some_0@ == path,
    decreases projects.len(),
{
    if projects.len() > 0 {
        let fewer = projects.drop_last();
        let last = projects.len() - 1;
        let some = with_projects(workspace, fewer).input_files;
        let here = extended_project(workspace, projects[last]).input_files;
        let all = with_projects(workspace, projects).input_files;
        assert(all == some + here);
        law_evaluated_files_are_inputs(workspace, fewer, path);
        lemma_files_inputs(workspace, projects[last], projects[last].files@, path);
        if some.contains(path) {
            let k = choose|k: int| 0 <= k < some.len() && some[k] == path;
            assert(all[k] == path);
            let (p, f) = choose|p: int, f: int|
                0 <= p < fewer.len() && 0 <= f < fewer[p].files@.len() && is_evaluated(
                    #[trigger] fewer[p].files@[f],
                ) && fewer[p].files@[f].virtual_path is Some
                    && fewer[p].files@[f].virtual_path->Some_0@ == path;
            assert(projects[p] == fewer[p]);
            assert(is_evaluated(projects[p].files@[f]));
        }
        if here.contains(path) {
            let k = choose|k: int| 0 <= k < here.len() && here[k] == path;
            assert(all[some.len() + k] == path);
            let f = choose|f: int|
                0 <= f < projects[last].files@.len() && is_evaluated(
                    #[trigger] projects[last].files@[f],
                ) && projects[last].files@[f].virtual_path is Some
                    && projects[last].files@[f].virtual_path->Some_0@ == path;
            assert(is_evaluated(projects[last].files@[f]));
        }
        if all.contains(path) {
            let k = choose|k: int| 0 <= k < all.len() && all[k] == path;
            if k < some.len() {
                assert(some[k] == path);
            } else {
                assert(here[k - some.len()] == path);
            }
        }
        if exists|p: int, f: int|
            0 <= p < projects.len() && 0 <= f < projects[p].files@.len() && is_evaluated(
                #[trigger] projects[p].files@[f],
            ) && projects[p].files@[f].virtual_path is Some
                && projects[p].files@[f].virtual_path->Some_0@ == path {
            let (p, f) = choose|p: int, f: int|
                0 <= p < projects.len() && 0 <= f < projects[p].files@.len() && is_evaluated(
                    #[trigger] projects[p].files@[f],
                ) && projects[p].files@[f].virtual_path is Some
                    && projects[p].files@[f].virtual_path->Some_0@ == path;
            if p < last {
                assert(fewer[p] == projects[p]);
                assert(is_evaluated(fewer[p].files@[f]));
            } else {
                assert(is_evaluated(projects[last].files@[f]));
            }
        }
    }
}

/// No later project has the id of that one.
pub open spec fn is_last_of_id(projects: Seq<GraphProject>, i: int) -> bool {
    0 <= i < projects.len() && forall|j: int|
        i < j < projects.len() ==> (#[trigger] projects[j]).id@ != projects[i].id@
}

/// What is contributed to a project stands in the graph under its id, where there is
/// anything: a dependency, a task or an alias. Its package set stands there where all of
/// its files were evaluated and no lock file makes it needless.
pub proof fn law_graph_holds_every_contribution(
    workspace: WorkspaceView,
    projects: Seq<GraphProject>,
    i: int,
)
    requires
        is_last_of_id(projects, i),
        forall|j: int| 0 <= j < i ==> (#[trigger] projects[j]).id@ != projects[i].id@,
    ensures
        ({
            let graph = with_projects(workspace, projects);
            let id = projects[i].id@;
            let extension = extended_project(workspace, projects[i]);
            let output = extension.output;
            let anything = output.dependencies.len() > 0 || output.alias is Some || exists|
                task: Seq<char>,
            | output.tasks.contains_key(task);
            &&& graph.extended_projects.contains_key(id) <==> anything
            &&& anything ==> graph.extended_projects[id] == output
            &&& graph.package_sets.contains_key(id) <==> !projects[i].has_lock_file && forall|f: int|
                0 <= f < projects[i].files@.len() ==> is_evaluated(#[trigger] projects[i].files@[f])
            &&& graph.package_sets.contains_key(id) ==> graph.package_sets[id] == extension.packages
        }),
    decreases projects.len(),
{
    let id = projects[i].id@;
    let fewer = projects.drop_last();
    let last = projects.len() - 1;
    let output = extended_project(workspace, projects[i]).output;
    assert(output.tasks != Map::<Seq<char>, TaskView>::empty() <==> exists|task: Seq<char>|
        output.tasks.contains_key(task)) by {
        if !(exists|task: Seq<char>| output.tasks.contains_key(task)) {
            assert(output.tasks =~= Map::<Seq<char>, TaskView>::empty());
        }
    }
    if i == last {
        lemma_id_is_absent(workspace, fewer, id);
        lemma_evaluated_all(workspace, projects[i], projects[i].files@);
    } else {
        assert(fewer[i] == projects[i]);
        assert(is_last_of_id(fewer, i));
        law_graph_holds_every_contribution(workspace, fewer, i);
        assert(projects[last].id@ != id);
    }
}

proof fn lemma_id_is_absent(
    workspace: WorkspaceView,
    projects: Seq<GraphProject>,
    id: Seq<char>,
)
    requires
        forall|j: int| 0 <= j < projects.len() ==> (#[trigger] projects[j]).id@ != id,
    ensures
        !with_projects(workspace, projects).extended_projects.contains_key(id),
        !with_projects(workspace, projects).package_sets.contains_key(id),
    decreases projects.len(),
{
    if projects.len() > 0 {
        let fewer = projects.drop_last();
        assert forall|j: int| 0 <= j < fewer.len() implies (#[trigger] fewer[j]).id@ != id by {
            assert(fewer[j] == projects[j]);
        }
        lemma_id_is_absent(workspace, fewer, id);
        assert(projects[projects.len() - 1].id@ != id);
    }
}

/// The graph is extended by what its projects contribute where dependencies or tasks are to
/// be inferred, and by nothing otherwise.
pub proof fn law_graph_is_extended_where_asked(
    config: DotnetToolchainConfig,
    projects: Seq<GraphProject>,
    reserved_ids: Seq<Seq<char>>,
    workspace_dir: Seq<char>,
)
    ensures
        ({
            let graph = extended_graph(config, projects, reserved_ids, workspace_dir);
            let asked = config.infer_dependencies || (match config.infer_tasks {
                InferTasksSetting::Enabled(enabled) => enabled,
                InferTasksSetting::Only(list) => list@.len() > 0,
            });
            if asked {
                graph == with_projects(
                    WorkspaceView {
                        index: index_of(projects),
                        infer_dependencies: config.infer_dependencies,
                        infer_tasks: config.infer_tasks,
                        reserved_ids,
                        workspace_dir,
                    },
                    projects,
                )
            } else {
                graph.extended_projects.dom() == Set::<Seq<char>>::empty()
                    && graph.input_files.len() == 0 && graph.package_sets.dom() == Set::<
                    Seq<char>,
                >::empty() && graph.task_failures.len() == 0
            }
        }),
{
    crate::config::law_settings_select_what_they_name(config.infer_tasks, "build"@);
}

// ---------------------------------------------------------------------------
// What is looked up
// ---------------------------------------------------------------------------

/// The workspace-relative path of a file, from a slash on: where it does not matter with
/// how many slashes the directory is written, and where the root has no directory.
pub proof fn law_suffixes_are_workspace_paths(dir: Seq<char>, name: Seq<char>)
    requires
        dir.len() > 0,
        dir[0] != '/',
        dir.last() != '/',
        dir != "."@,
    ensures
        file_suffix(dir, name) == msbuild::path_key("/"@ + dir + "/"@ + name),
        file_suffix("/"@ + dir + "/"@, name) == file_suffix(dir, name),
        file_suffix("."@, name) == msbuild::path_key("/"@ + name),
        file_suffix(Seq::empty(), name) == msbuild::path_key("/"@ + name),
        file_suffix("/"@, name) == msbuild::path_key("/"@ + name),
{
    reveal_strlit("/");
    reveal_strlit(".");
    assert("/"@ =~= seq!['/']);
    assert("."@ =~= seq!['.']);
    assert("."@.last() == '.');
    text::law_trimming_leaves_the_rest(dir, '/');
    text::law_trimming_leaves_the_rest("."@, '/');
}

/// A file of that project has that suffix.
pub open spec fn has_suffix(project: GraphProject, suffix: Seq<char>) -> bool {
    exists|f: int|
        0 <= f < project.files@.len() && file_suffix(
            project.source@,
            (#[trigger] project.files@[f]).name@,
        ) == suffix
}

proof fn lemma_files_suffix_owner(
    index: IndexView,
    id: Seq<char>,
    source: Seq<char>,
    files: Seq<ProjectFile>,
    suffix: Seq<char>,
)
    requires
        with_files(index, id, source, files).suffixes.contains_key(suffix),
        with_files(index, id, source, files).suffixes[suffix] is Some,
    ensures
        ({
            let owner = with_files(index, id, source, files).suffixes[suffix];
            ||| index.suffixes.contains_key(suffix) && index.suffixes[suffix] == owner
            ||| owner == Some(id) && exists|f: int|
                0 <= f < files.len() && file_suffix(source, (#[trigger] files[f]).name@) == suffix
        }),
    decreases files.len(),
{
    if files.len() > 0 {
        let fewer = files.drop_last();
        let last = files.len() - 1;
        if file_suffix(source, files[last].name@) != suffix {
            lemma_files_suffix_owner(index, id, source, fewer, suffix);
            if exists|f: int|
                0 <= f < fewer.len() && file_suffix(source, (#[trigger] fewer[f]).name@) == suffix {
                let f = choose|f: int|
                    0 <= f < fewer.len() && file_suffix(source, (#[trigger] fewer[f]).name@)
                        == suffix;
                assert(files[f] == fewer[f]);
            }
        }
    }
}

/// A suffix that belongs to a project is that of one of its files.
pub proof fn law_suffixes_belong_to_their_project(projects: Seq<GraphProject>, suffix: Seq<char>)
    requires
        index_of(projects).suffixes.contains_key(suffix),
        index_of(projects).suffixes[suffix] is Some,
    ensures
        exists|p: int|
            0 <= p < projects.len() && Some((#[trigger] projects[p]).id@) == index_of(
                projects,
            ).suffixes[suffix] && has_suffix(projects[p], suffix),
    decreases projects.len(),
{
    if projects.len() > 0 {
        let fewer = projects.drop_last();
        let last = projects.len() - 1;
        let project = projects[last];
        lemma_files_suffix_owner(
            index_of(fewer),
            project.id@,
            project.source@,
            project.files@,
            suffix,
        );
        let owner = index_of(projects).suffixes[suffix];
        if index_of(fewer).suffixes.contains_key(suffix) && index_of(fewer).suffixes[suffix]
            == owner {
            law_suffixes_belong_to_their_project(fewer, suffix);
            let p = choose|p: int|
                0 <= p < fewer.len() && Some((#[trigger] fewer[p]).id@) == index_of(
                    fewer,
                ).suffixes[suffix] && has_suffix(fewer[p], suffix);
            assert(projects[p] == fewer[p]);
        } else {
            assert(has_suffix(projects[last], suffix));
        }
    }
}

proof fn lemma_files_real_owner(
    index: IndexView,
    id: Seq<char>,
    source: Seq<char>,
    files: Seq<ProjectFile>,
    key: Seq<char>,
)
    requires
        with_files(index, id, source, files).real_paths.contains_key(key),
    ensures
        ({
            let owner = with_files(index, id, source, files).real_paths[key];
            ||| index.real_paths.contains_key(key) && index.real_paths[key] == owner
            ||| owner == id && has_path_key(files, key)
        }),
    decreases files.len(),
{
    if files.len() > 0 {
        let fewer = files.drop_last();
        let last = files.len() - 1;
        if files[last].real_path is Some && msbuild::path_key(files[last].real_path->Some_0@)
            == key {
            assert(has_path_key(files, key));
        } else {
            lemma_files_real_owner(index, id, source, fewer, key);
            if has_path_key(fewer, key) {
                let f = choose|f: int|
                    0 <= f < fewer.len() && (#[trigger] fewer[f]).real_path is Some
                        && msbuild::path_key(fewer[f].real_path->Some_0@) == key;
                assert(files[f] == fewer[f]);
                assert(has_path_key(files, key));
            }
        }
    }
}

proof fn lemma_real_owner(projects: Seq<GraphProject>, key: Seq<char>)
    requires
        index_of(projects).real_paths.contains_key(key),
    ensures
        exists|p: int|
            0 <= p < projects.len() && (#[trigger] projects[p]).id@ == index_of(
                projects,
            ).real_paths[key] && has_path_key(projects[p].files@, key),
    decreases projects.len(),
{
    if projects.len() > 0 {
        let fewer = projects.drop_last();
        let last = projects.len() - 1;
        let project = projects[last];
        lemma_files_real_owner(
            index_of(fewer),
            project.id@,
            project.source@,
            project.files@,
            key,
        );
        if !(index_of(projects).real_paths[key] == project.id@ && has_path_key(
            project.files@,
            key,
        )) {
            lemma_real_owner(fewer, key);
            let p = choose|p: int|
                0 <= p < fewer.len() && (#[trigger] fewer[p]).id@ == index_of(
                    fewer,
                ).real_paths[key] && has_path_key(fewer[p].files@, key);
            assert(projects[p] == fewer[p]);
        } else {
            assert(projects[last].id@ == index_of(projects).real_paths[key]);
        }
    }
}

/// A reference leads only to a project with a file that it names: by its real path, or by
/// a workspace-relative path that it ends with.
pub proof fn law_references_lead_to_a_file_they_name(
    projects: Seq<GraphProject>,
    reference: Seq<char>,
)
    requires
        index_of(projects).project_at(reference) is Some,
    ensures
        exists|p: int|
            0 <= p < projects.len() && Some((#[trigger] projects[p]).id@) == index_of(
                projects,
            ).project_at(reference) && (has_path_key(
                projects[p].files@,
                msbuild::path_key(reference),
            ) || exists|suffix: Seq<char>|
                suffix.is_suffix_of(msbuild::path_key(reference)) && #[trigger] has_suffix(
                    projects[p],
                    suffix,
                )),
{
    let key = msbuild::path_key(reference);
    let index = index_of(projects);
    if index.real_paths.contains_key(key) {
        lemma_real_owner(projects, key);
        let p = choose|p: int|
            0 <= p < projects.len() && (#[trigger] projects[p]).id@ == index.real_paths[key]
                && has_path_key(projects[p].files@, key);
        assert(Some(projects[p].id@) == index.project_at(reference));
    } else {
        let suffix = choose|suffix: Seq<char>| #[trigger]
            is_only_match(index.suffixes, key, suffix);
        assert(is_only_match(index.suffixes, key, suffix));
        law_suffixes_belong_to_their_project(projects, suffix);
        let p = choose|p: int|
            0 <= p < projects.len() && Some((#[trigger] projects[p]).id@)
                == index.suffixes[suffix] && has_suffix(projects[p], suffix);
        assert(Some(projects[p].id@) == index.project_at(reference));
    }
}

/// A reference whose real path is not known leads to the project of the only file whose
/// workspace-relative path it ends with.
pub proof fn law_references_lead_by_the_only_suffix(
    projects: Seq<GraphProject>,
    p: int,
    f: int,
    reference: Seq<char>,
)
    requires
        0 <= p < projects.len(),
        0 <= f < projects[p].files@.len(),
        !index_of(projects).real_paths.contains_key(msbuild::path_key(reference)),
        ({
            let suffix = file_suffix(projects[p].source@, projects[p].files@[f].name@);
            &&& suffix.is_suffix_of(msbuild::path_key(reference))
            &&& all_files_with_suffix(projects, suffix) == 1
            &&& forall|other: Seq<char>|
                other.is_suffix_of(msbuild::path_key(reference)) && other != suffix
                    ==> #[trigger] all_files_with_suffix(projects, other) == 0
        }),
        forall|q: int|
            0 <= q < projects.len() && has_suffix(
                #[trigger] projects[q],
                file_suffix(projects[p].source@, projects[p].files@[f].name@),
            ) ==> q == p,
    ensures
        index_of(projects).project_at(reference) == Some(projects[p].id@),
{
    let key = msbuild::path_key(reference);
    let suffix = file_suffix(projects[p].source@, projects[p].files@[f].name@);
    let index = index_of(projects);
    law_shared_suffixes_lead_nowhere(projects, suffix);
    assert(is_match(index.suffixes, key, suffix));
    assert forall|other: Seq<char>| #[trigger] is_match(index.suffixes, key, other) implies other
        == suffix by {
        law_shared_suffixes_lead_nowhere(projects, other);
        if other != suffix {
            assert(all_files_with_suffix(projects, other) == 0);
        }
    }
    assert(is_only_match(index.suffixes, key, suffix));
    law_competing_suffixes_lead_nowhere(index, reference, suffix, suffix);
    law_suffixes_belong_to_their_project(projects, suffix);
}

proof fn lemma_real_paths(files: Seq<ProjectFile>, path: Seq<char>)
    ensures
        real_paths(files).contains(path) <==> exists|f: int|
            0 <= f < files.len() && (#[trigger] files[f]).real_path is Some
                && files[f].real_path->Some_0@ == path,
    decreases files.len(),
{
    if files.len() > 0 {
        let fewer = files.drop_last();
        let last = files.len() - 1;
        let some = real_paths(fewer);
        let all = real_paths(files);
        lemma_real_paths(fewer, path);
        assert forall|f: int| 0 <= f < fewer.len() implies #[trigger] fewer[f] == files[f] by {}
        if some.contains(path) {
            let k = choose|k: int| 0 <= k < some.len() && some[k] == path;
            assert(all[k] == path);
            let f = choose|f: int|
                0 <= f < fewer.len() && (#[trigger] fewer[f]).real_path is Some
                    && fewer[f].real_path->Some_0@ == path;
            assert(files[f].real_path is Some);
        }
        if all.contains(path) {
            let k = choose|k: int| 0 <= k < all.len() && all[k] == path;
            if k < some.len() {
                assert(some[k] == path);
            } else {
                assert(files[last].real_path is Some);
            }
        }
        if exists|f: int|
            0 <= f < files.len() && (#[trigger] files[f]).real_path is Some
                && files[f].real_path->Some_0@ == path {
            let f = choose|f: int|
                0 <= f < files.len() && (#[trigger] files[f]).real_path is Some
                    && files[f].real_path->Some_0@ == path;
            if f < last {
                assert(fewer[f].real_path is Some);
            } else {
                assert(all[some.len() as int] == path);
            }
        }
    }
}

/// A batch evaluates every project file that has a real path, and nothing else.
pub proof fn law_batches_evaluate_every_file(projects: Seq<GraphProject>, path: Seq<char>)
    ensures
        all_real_paths(projects).contains(path) <==> exists|p: int, f: int|
            0 <= p < projects.len() && 0 <= f < projects[p].files@.len() && (
            #[trigger] projects[p].files@[f]).real_path is Some
                && projects[p].files@[f].real_path->Some_0@ == path,
    decreases projects.len(),
{
    if projects.len() > 0 {
        let fewer = projects.drop_last();
        let last = projects.len() - 1;
        let some = all_real_paths(fewer);
        let here = real_paths(projects[last].files@);
        let all = all_real_paths(projects);
        assert(all == some + here);
        law_batches_evaluate_every_file(fewer, path);
        lemma_real_paths(projects[last].files@, path);
        if some.contains(path) {
            let k = choose|k: int| 0 <= k < some.len() && some[k] == path;
            assert(all[k] == path);
            let (p, f) = choose|p: int, f: int|
                0 <= p < fewer.len() && 0 <= f < fewer[p].files@.len() && (
                #[trigger] fewer[p].files@[f]).real_path is Some
                    && fewer[p].files@[f].real_path->Some_0@ == path;
            assert(projects[p] == fewer[p]);
            assert(projects[p].files@[f].real_path is Some);
        }
        if here.contains(path) {
            let k = choose|k: int| 0 <= k < here.len() && here[k] == path;
            assert(all[some.len() + k] == path);
            let f = choose|f: int|
                0 <= f < projects[last].files@.len() && (
                #[trigger] projects[last].files@[f]).real_path is Some
                    && projects[last].files@[f].real_path->Some_0@ == path;
            assert(projects[last].files@[f].real_path is Some);
        }
        if all.contains(path) {
            let k = choose|k: int| 0 <= k < all.len() && all[k] == path;
            if k < some.len() {
                assert(some[k] == path);
            } else {
                assert(here[k - some.len()] == path);
            }
        }
        if exists|p: int, f: int|
            0 <= p < projects.len() && 0 <= f < projects[p].files@.len() && (
            #[trigger] projects[p].files@[f]).real_path is Some
                && projects[p].files@[f].real_path->Some_0@ == path {
            let (p, f) = choose|p: int, f: int|
                0 <= p < projects.len() && 0 <= f < projects[p].files@.len() && (
                #[trigger] projects[p].files@[f]).real_path is Some
                    && projects[p].files@[f].real_path->Some_0@ == path;
            if p < last {
                assert(fewer[p] == projects[p]);
                assert(fewer[p].files@[f].real_path is Some);
            } else {
                assert(projects[last].files@[f].real_path is Some);
            }
        }
    }
}

/// The directories that a source names, one by one: dots and doubled slashes name none.
pub proof fn law_sources_name_their_directories(source: Seq<char>, name: Seq<char>)
    requires
        text::is_free_of(name, '/'),
    ensures
        name.len() > 0 && name != "."@ ==> source_parts(source.push('/') + name) == source_parts(
            source,
        ).push(name) && source_parts(name) == seq![name],
        source_parts(source.push('/')) == source_parts(source),
        source_parts(source.push('/') + "."@) == source_parts(source),
        source_parts(Seq::empty()).len() == 0,
        source_parts("."@).len() == 0,
{
    reveal(Seq::filter);
    reveal_strlit(".");
    let none = Seq::<char>::empty();
    let chosen = |piece: Seq<char>| is_named(piece);
    let pieces = text::split(source, '/');
    text::lemma_split_after(source, name, '/');
    text::lemma_split_after(source, none, '/');
    text::lemma_split_after(source, "."@, '/');
    text::lemma_split_whole(name, '/');
    text::lemma_split_whole(none, '/');
    text::lemma_split_whole("."@, '/');
    assert(source.push('/') + none =~= source.push('/'));
    assert(pieces.push(name).drop_last() =~= pieces);
    assert(pieces.push(none).drop_last() =~= pieces);
    assert(pieces.push("."@).drop_last() =~= pieces);
    let empty = Seq::<Seq<char>>::empty();
    assert(seq![name].drop_last() =~= empty);
    assert(seq![none].drop_last() =~= empty);
    assert(seq!["."@].drop_last() =~= empty);
    assert(empty.filter(chosen) =~= empty);
    if name.len() > 0 && name != "."@ {
        assert(seq![name].filter(chosen) =~= seq![name]);
    }
}

/// The host has no SDK to run exactly where it says so, in one of two ways, wherever in its
/// message.
pub proof fn law_missing_sdks_are_told(before_it: Seq<char>, after_it: Seq<char>, other: Seq<char>)
    ensures
        reports_missing_sdk(before_it + "compatible .NET SDK was not found"@ + after_it),
        reports_missing_sdk(before_it + "No .NET SDKs were found"@ + after_it),
        reports_missing_sdk(other) ==> text::contains_text(
            other,
            "compatible .NET SDK was not found"@,
        ) || text::contains_text(other, "No .NET SDKs were found"@),
{
    let a = "compatible .NET SDK was not found"@;
    let b = "No .NET SDKs were found"@;
    assert(a.subrange(0, a.len() as int) =~= a);
    assert(b.subrange(0, b.len() as int) =~= b);
    assert(text::occurs_at(a, a, 0));
    assert(text::occurs_at(b, b, 0));
    text::lemma_contains_inside(before_it, a, after_it, a);
    text::lemma_contains_inside(before_it, b, after_it, b);
}

/// The report of a missing SDK names the file and the version of the pin, and ends with what
/// the host said.
pub proof fn law_missing_sdk_reports_name_the_pin(
    file: Seq<char>,
    version: Seq<char>,
    message: Seq<char>,
)
    ensures
        text::contains_text(missing_sdk(Some((file, version)), message), file),
        text::contains_text(missing_sdk(Some((file, version)), message), version),
        message.is_suffix_of(missing_sdk(Some((file, version)), message)),
        message.is_suffix_of(missing_sdk(None, message)),
{
    let whole = missing_sdk(Some((file, version)), message);
    let open = "The .NET SDK pinned by <path>"@;
    let middle = "</path> (<symbol>"@;
    let at = open.len() as int;
    assert(whole.subrange(at, at + file.len()) =~= file);
    assert(text::occurs_at(whole, file, at));
    let there = (open.len() + file.len() + middle.len()) as int;
    assert(whole.subrange(there, there + version.len()) =~= version);
    assert(text::occurs_at(whole, version, there));
    assert(whole.subrange(whole.len() - message.len(), whole.len() as int) =~= message);
    let bare = missing_sdk(None, message);
    assert(bare.subrange(bare.len() - message.len(), bare.len() as int) =~= message);
}

/// The faults of inference, one for each evaluated file that has one, in order.
pub open spec fn faults_of(
    workspace: WorkspaceView,
    project: GraphProject,
    files: Seq<ProjectFile>,
    fault: TaskFault,
) -> bool {
    exists|f: int|
        0 <= f < files.len() && is_evaluated(#[trigger] files[f]) && tasks_of_file(
            workspace,
            project,
            files[f],
        ) == Err::<Map<Seq<char>, TaskView>, TaskFault>(fault)
}

proof fn lemma_files_faults(
    workspace: WorkspaceView,
    project: GraphProject,
    files: Seq<ProjectFile>,
    fault: TaskFault,
)
    requires
        workspace.infer_tasks.is_enabled(),
    ensures
        with_evaluated_files(workspace, project, files).task_faults.contains(fault) <==> faults_of(
            workspace,
            project,
            files,
            fault,
        ),
    decreases files.len(),
{
    if files.len() > 0 {
        let fewer = files.drop_last();
        let last = files.len() - 1;
        let some = with_evaluated_files(workspace, project, fewer).task_faults;
        let all = with_evaluated_files(workspace, project, files).task_faults;
        lemma_files_faults(workspace, project, fewer, fault);
        assert(tasks_of_file(workspace, project, files[last]) == infer_tasks::inferred_tasks(
            workspace.infer_tasks,
            workspace.reserved_ids,
            infer_view(workspace, project, files[last]),
        ));
        assert forall|f: int| 0 <= f < fewer.len() implies #[trigger] fewer[f] == files[f] by {}
        if some.contains(fault) {
            let k = choose|k: int| 0 <= k < some.len() && some[k] == fault;
            assert(all[k] == fault);
            let f = choose|f: int|
                0 <= f < fewer.len() && is_evaluated(#[trigger] fewer[f]) && tasks_of_file(
                    workspace,
                    project,
                    fewer[f],
                ) == Err::<Map<Seq<char>, TaskView>, TaskFault>(fault);
            assert(is_evaluated(files[f]));
        }
        if all.contains(fault) {
            let k = choose|k: int| 0 <= k < all.len() && all[k] == fault;
            if k < some.len() {
                assert(some[k] == fault);
            } else {
                assert(is_evaluated(files[last]));
            }
        }
        if faults_of(workspace, project, files, fault) {
            let f = choose|f: int|
                0 <= f < files.len() && is_evaluated(#[trigger] files[f]) && tasks_of_file(
                    workspace,
                    project,
                    files[f],
                ) == Err::<Map<Seq<char>, TaskView>, TaskFault>(fault);
            if f < last {
                assert(is_evaluated(fewer[f]));
            } else {
                assert(all[some.len() as int] == fault);
            }
        }
    }
}

/// Every failure of inference is reported under the id of its project, and nothing else is.
pub proof fn law_every_failure_is_reported(
    workspace: WorkspaceView,
    projects: Seq<GraphProject>,
    id: Seq<char>,
    fault: TaskFault,
)
    requires
        workspace.infer_tasks.is_enabled(),
    ensures
        with_projects(workspace, projects).task_failures.contains((id, fault)) <==> exists|p: int|
            0 <= p < projects.len() && (#[trigger] projects[p]).id@ == id && faults_of(
                workspace,
                projects[p],
                projects[p].files@,
                fault,
            ),
    decreases projects.len(),
{
    if projects.len() > 0 {
        let fewer = projects.drop_last();
        let last = projects.len() - 1;
        let some = with_projects(workspace, fewer).task_failures;
        let faults = extended_project(workspace, projects[last]).task_faults;
        let here = faults.map_values(|fault: TaskFault| (projects[last].id@, fault));
        let all = with_projects(workspace, projects).task_failures;
        assert(all =~= some + here);
        law_every_failure_is_reported(workspace, fewer, id, fault);
        lemma_files_faults(workspace, projects[last], projects[last].files@, fault);
        assert forall|p: int| 0 <= p < fewer.len() implies #[trigger] fewer[p] == projects[p] by {}
        if some.contains((id, fault)) {
            let k = choose|k: int| 0 <= k < some.len() && some[k] == (id, fault);
            assert(all[k] == (id, fault));
            let p = choose|p: int|
                0 <= p < fewer.len() && (#[trigger] fewer[p]).id@ == id && faults_of(
                    workspace,
                    fewer[p],
                    fewer[p].files@,
                    fault,
                );
            assert(projects[p].id@ == id);
        }
        if all.contains((id, fault)) {
            let k = choose|k: int| 0 <= k < all.len() && all[k] == (id, fault);
            if k < some.len() {
                assert(some[k] == (id, fault));
            } else {
                assert(faults[k - some.len()] == fault);
                assert(faults.contains(fault));
                assert(projects[last].id@ == id);
            }
        }
        if exists|p: int|
            0 <= p < projects.len() && (#[trigger] projects[p]).id@ == id && faults_of(
                workspace,
                projects[p],
                projects[p].files@,
                fault,
            ) {
            let p = choose|p: int|
                0 <= p < projects.len() && (#[trigger] projects[p]).id@ == id && faults_of(
                    workspace,
                    projects[p],
                    projects[p].files@,
                    fault,
                );
            if p < last {
                assert(fewer[p].id@ == id);
            } else {
                let k = choose|k: int| 0 <= k < faults.len() && faults[k] == fault;
                assert(here[k] == (id, fault));
                assert(all[some.len() + k] == (id, fault));
            }
        }
    }
}

/// With task inference switched off there are no tasks and no failures.
pub proof fn law_no_tasks_without_inference(workspace: WorkspaceView, project: GraphProject)
    requires
        !workspace.infer_tasks.is_enabled(),
    ensures
        extended_project(workspace, project).output.tasks.dom() == Set::<Seq<char>>::empty(),
        extended_project(workspace, project).task_faults.len() == 0,
{
    lemma_no_tasks(workspace, project, project.files@);
}

proof fn lemma_no_tasks(
    workspace: WorkspaceView,
    project: GraphProject,
    files: Seq<ProjectFile>,
)
    requires
        !workspace.infer_tasks.is_enabled(),
    ensures
        with_evaluated_files(workspace, project, files).output.tasks == Map::<
            Seq<char>,
            TaskView,
        >::empty(),
        with_evaluated_files(workspace, project, files).task_faults.len() == 0,
    decreases files.len(),
{
    if files.len() > 0 {
        lemma_no_tasks(workspace, project, files.drop_last());
    }
}

/// What is contributed says what it holds.
pub proof fn law_contributions_say_what_they_hold(
    dependency: ProjectDependency,
    output: ExtendProjectOutput,
    project: ExtendedProject,
    graph: ExtendProjectGraphOutput,
    index: ProjectIndex,
)
    ensures
        dependency@.id == dependency.id@,
        dependency@.scope == dependency.scope,
        dependency@.via == dependency.via@,
        output@.alias is Some <==> output.alias is Some,
        output@.alias is Some ==> output@.alias->Some_0 == output.alias->Some_0@,
        output@.dependencies.len() == output.dependencies@.len(),
        forall|i: int|
            0 <= i < output.dependencies@.len() ==> (#[trigger] output@.dependencies[i])
                == output.dependencies@[i]@,
        output@.tasks == output.tasks@,
        output.deep_view() == output@,
        project@.output == project.output@,
        project@.packages == project.packages@,
        project@.evaluated_all == project.evaluated_all,
        project@.input_files == text::views(project.input_files@),
        project@.task_faults.len() == project.task_errors@.len(),
        graph@.extended_projects == graph.extended_projects@,
        graph@.input_files == text::views(graph.input_files@),
        graph@.package_sets == graph.package_sets@,
        graph@.task_failures.len() == graph.task_failures@.len(),
        forall|i: int|
            0 <= i < graph.task_failures@.len() ==> (#[trigger] graph@.task_failures[i]).0
                == graph.task_failures@[i].id@,
        index@.real_paths == index.real_paths@,
        index@.suffixes == index.suffixes@,
{
}

/// The assembly of an evaluated file is called what MSBuild reported as its `AssemblyName`; that
/// of any other file has no name.
pub proof fn law_assemblies_are_called_as_reported(file: ProjectFile)
    ensures
        ({
            let reported = file.evaluation->Some_0.properties@;
            &&& is_evaluated(file) && reported.contains_key("AssemblyName"@) ==> assembly_name(file)
                == reported["AssemblyName"@]
            &&& !(is_evaluated(file) && reported.contains_key("AssemblyName"@)) ==> assembly_name(
                file,
            ).len() == 0
        }),
{
}

} // verus!
