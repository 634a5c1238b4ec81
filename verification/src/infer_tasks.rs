//! Inferring `build` / `test` / `run` / `publish` tasks from MSBuild evaluations.

use crate::config::InferTasksSetting;
use crate::msbuild::EvalView;
use crate::msbuild::MsbuildEvaluation;
use crate::str_map::StrMap;
use crate::text;
use vstd::prelude::*;

verus! {

// ---------------------------------------------------------------------------
// Output paths
// ---------------------------------------------------------------------------

/// Two characters are the same up to case.
pub open spec fn same_char_ignoring_case(a: char, b: char) -> bool {
    a == b || text::lowered_char(a) == text::lowered_char(b)
}

/// `value` begins with `base`, up to case, and a slash.
pub open spec fn begins_with_ci(value: Seq<char>, base: Seq<char>) -> bool {
    &&& 0 < base.len() < value.len()
    &&& forall|i: int| 0 <= i < base.len() ==> same_char_ignoring_case(value[i], base[i])
    &&& value[base.len() as int] == '/'
}

/// What follows `base` and a slash in `value`.
pub open spec fn stripped_ci(value: Seq<char>, base: Seq<char>) -> Option<Seq<char>> {
    if begins_with_ci(value, base) {
        Some(value.skip(base.len() as int + 1))
    } else {
        None
    }
}

/// Strip `base` (plus one separator) from the start of `value`,
/// case-insensitively: Windows paths are case-insensitive and MSBuild
/// output casing is not guaranteed to match what moon reports. Both inputs
/// must already use forward slashes.
pub fn strip_prefix_ci(value: &[char], base: &[char]) -> (r: Option<Vec<char>>)
    ensures
        match r {
            Some(rest) => stripped_ci(value@, base@) == Some(rest@),
            None => stripped_ci(value@, base@) is None,
        },
{
    let total: usize = value.len();
    if base.len() == 0 || base.len() >= total {
        return None;
    }
    for i in 0..base.len()
        invariant
            base@.len() < value@.len(),
            forall|j: int| 0 <= j < i ==> same_char_ignoring_case(value@[j], base@[j]),
    {
        if value[i] != base[i] {
            let a = text::to_lowercase_char(value[i]);
            let b = text::to_lowercase_char(base[i]);
            if !text::same_chars(&a, &b) {
                assert(!same_char_ignoring_case(value@[i as int], base@[i as int]));
                return None;
            }
        }
    }
    if value[base.len()] != '/' {
        return None;
    }
    let rest = text::slice_of(value, base.len() + 1, total);
    assert(rest@ =~= value@.skip(base@.len() as int + 1));
    Some(rest)
}

/// A path with forward slashes and without slashes at its end.
pub open spec fn forward_path(path: Seq<char>) -> Seq<char> {
    text::trimmed_end(text::replaced(path, '\\', '/'), '/')
}

/// The path hangs from the root or from a drive.
pub open spec fn is_absolute(path: Seq<char>) -> bool {
    ||| path.len() > 0 && path[0] == '/'
    ||| path.len() > 1 && (path[0] as u32) < 128 && path[1] == ':'
}

/// Some piece of the path leads up.
pub open spec fn climbs(path: Seq<char>) -> bool {
    text::split(path, '/').contains(".."@)
}

/// The directories that are entered and not left again on the way along the pieces.
/// There is no way up from where it starts.
pub open spec fn walked(pieces: Seq<Seq<char>>) -> Seq<Seq<char>>
    decreases pieces.len(),
{
    if pieces.len() == 0 {
        Seq::empty()
    } else {
        let before = walked(pieces.drop_last());
        let piece = pieces.last();
        if piece.len() == 0 || piece == "."@ {
            before
        } else if piece == ".."@ {
            if before.len() == 0 {
                before
            } else {
                before.drop_last()
            }
        } else {
            before.push(piece)
        }
    }
}

/// The place that an absolute path leads to, said without pieces that lead up: what
/// stands before the first slash, nothing or a drive, stays.
#[verifier::opaque]
pub open spec fn folded(path: Seq<char>) -> Seq<char> {
    let pieces = text::split(path, '/');
    text::joined(seq![pieces[0]] + walked(pieces.skip(1)), '/')
}

/// The place that a path leads to from a directory.
pub open spec fn place_of(path: Seq<char>, dir: Seq<char>) -> Seq<char> {
    if is_absolute(path) {
        folded(path)
    } else {
        folded(dir.push('/') + path)
    }
}

/// The moon task output for a place: relative to the project where it lies below that,
/// from a slash on and relative to the workspace where it lies below that.
pub open spec fn output_at(
    place: Seq<char>,
    project: Seq<char>,
    workspace: Seq<char>,
) -> Option<Seq<char>> {
    match stripped_ci(place, project) {
        Some(relative) => Some(relative),
        None => match stripped_ci(place, workspace) {
            Some(relative) => Some(seq!['/'] + relative),
            None => None,
        },
    }
}

/// The moon task output that an evaluated MSBuild output path stands for.
pub open spec fn resolved_output(
    raw: Seq<char>,
    project_dir: Seq<char>,
    workspace_dir: Seq<char>,
) -> Option<Seq<char>> {
    let value = forward_path(raw);
    let project = forward_path(project_dir);
    let workspace = forward_path(workspace_dir);
    if value.len() == 0 {
        None
    } else if climbs(value) {
        output_at(place_of(value, project), folded(project), folded(workspace))
    } else if is_absolute(value) {
        output_at(value, project, workspace)
    } else {
        Some(value)
    }
}

/// A path with forward slashes and without slashes at its end.
fn forward_path_of(path: &str) -> (r: Vec<char>)
    ensures
        r@ == forward_path(path@),
{
    let forward = text::replace_char(path, '\\', '/');
    let chars = text::chars_of(forward.as_str());
    let len = text::trimmed_end_len(&chars, '/');
    let r = text::slice_of(&chars, 0, len);
    assert(r@ =~= chars@.take(len as int));
    r
}

/// The place that an absolute path leads to, said without pieces that lead up.
fn fold(path: &[char]) -> (r: Vec<char>)
    ensures
        r@ == folded(path@),
{
    let content = text::string_of(path);
    let pieces = text::split_text(content.as_str(), '/');
    let ghost all = text::split(path@, '/');
    proof {
        reveal(folded);
        text::lemma_split_pieces(path@, '/');
        assert(all.len() == text::views(pieces@).len());
    }
    let mut kept: Vec<String> = Vec::new();
    text::push_owned(&mut kept, pieces[0].as_str());
    assert(text::views(pieces@)[0] == all[0]);
    assert(all.skip(1).take(0) =~= Seq::empty());
    assert(text::views(kept@) =~= seq![all[0]] + walked(all.skip(1).take(0)));
    for i in 1..pieces.len()
        invariant
            all == text::views(pieces@),
            1 <= pieces@.len(),
            text::views(kept@) == seq![all[0]] + walked(all.skip(1).take(i - 1)),
    {
        let piece = pieces[i].as_str();
        let ghost was = kept@;
        let ghost before = walked(all.skip(1).take(i - 1));
        assert(all[i as int] == piece@);
        assert(all.skip(1).take(i as int).drop_last() =~= all.skip(1).take(i - 1));
        assert(all.skip(1).take(i as int).last() == piece@);
        if text::same_text(piece, "..") {
            assert(text::views(was).len() == kept@.len());
            proof {
                reveal_strlit("..");
                reveal_strlit(".");
            }
            if kept.len() > 1 {
                kept.pop();
                assert(text::views(kept@) =~= text::views(was).drop_last());
                assert(text::views(kept@) =~= seq![all[0]] + before.drop_last());
            }
        } else if !piece.is_empty() && !text::same_text(piece, ".") {
            text::push_owned(&mut kept, piece);
            assert(text::views(kept@) =~= seq![all[0]] + before.push(piece@));
        }
    }
    assert(all.skip(1).take(all.len() - 1) =~= all.skip(1));
    text::chars_of(text::join(&kept, '/').as_str())
}

/// Whether some piece of the path leads up.
fn has_climb(path: &[char]) -> (r: bool)
    ensures
        r == climbs(path@),
{
    let content = text::string_of(path);
    let pieces = text::split_text(content.as_str(), '/');
    text::list_contains(&pieces, "..")
}

/// The moon task output for a place.
fn output_for(place: &[char], project: &[char], workspace: &[char]) -> (r: Option<String>)
    ensures
        match r {
            Some(path) => output_at(place@, project@, workspace@) == Some(path@),
            None => output_at(place@, project@, workspace@) is None,
        },
{
    if let Some(relative) = strip_prefix_ci(place, project) {
        return Some(text::string_of(&relative));
    }
    if let Some(relative) = strip_prefix_ci(place, workspace) {
        let mut path: Vec<char> = Vec::new();
        path.push('/');
        text::push_chars(&mut path, &relative);
        assert(path@ =~= seq!['/'] + relative@);
        return Some(text::string_of(&path));
    }
    None
}

/// Turn an evaluated MSBuild output path into a moon task output: relative
/// paths pass through, absolute paths under the project dir become
/// project-relative, absolute paths under the workspace root become
/// workspace-relative (leading `/`). A path with `..` in it counts as the
/// place that it leads to from the project dir. Anything else (redirected
/// outside the workspace) is `None`: the task must then disable caching rather
/// than cache the wrong directory.
pub fn resolve_output_path(raw: &str, project_dir: &str, workspace_dir: &str) -> (r: Option<String>)
    ensures
        match r {
            Some(path) => resolved_output(raw@, project_dir@, workspace_dir@) == Some(path@),
            None => resolved_output(raw@, project_dir@, workspace_dir@) is None,
        },
{
    let value = forward_path_of(raw);
    if value.len() == 0 {
        return None;
    }
    let absolute = value[0] == '/' || (value.len() > 1 && (value[0] as u32) < 128 && value[1]
        == ':');
    let climbing = has_climb(&value);
    if !absolute && !climbing {
        return Some(text::string_of(&value));
    }
    let project = forward_path_of(project_dir);
    let workspace = forward_path_of(workspace_dir);
    if !climbing {
        return output_for(&value, &project, &workspace);
    }
    let place = if absolute {
        fold(&value)
    } else {
        let mut path = forward_path_of(project_dir);
        path.push('/');
        text::push_chars(&mut path, &value);
        fold(&path)
    };
    output_for(&place, &fold(&project), &fold(&workspace))
}

/// `path` is what a place is called that lies below the project or the workspace.
pub open spec fn lies_at(
    place: Seq<char>,
    project: Seq<char>,
    workspace: Seq<char>,
    path: Seq<char>,
) -> bool {
    ||| begins_with_ci(place, project) && place == place.take(project.len() as int).push('/') + path
    ||| begins_with_ci(place, workspace) && place == place.take(workspace.len() as int) + path
}

/// What is walked leads up nowhere, and is made of pieces.
proof fn lemma_walked(pieces: Seq<Seq<char>>)
    ensures
        !walked(pieces).contains(".."@),
        forall|i: int|
            0 <= i < walked(pieces).len() ==> pieces.contains(#[trigger] walked(pieces)[i]),
    decreases pieces.len(),
{
    if pieces.len() > 0 {
        let fewer = pieces.drop_last();
        let before = walked(fewer);
        lemma_walked(fewer);
        assert forall|i: int| 0 <= i < walked(pieces).len() implies pieces.contains(
            #[trigger] walked(pieces)[i],
        ) && walked(pieces)[i] != ".."@ by {
            if i < before.len() {
                assert(before.contains(before[i]));
                assert(fewer.contains(before[i]));
                let j = choose|j: int| 0 <= j < fewer.len() && fewer[j] == before[i];
                assert(pieces[j] == before[i]);
            } else {
                assert(pieces[pieces.len() - 1] == walked(pieces)[i]);
            }
        }
    }
}

/// Below a directory, a folded path leads up nowhere.
proof fn lemma_folded_below(path: Seq<char>, at: int)
    requires
        0 <= at < folded(path).len(),
        folded(path)[at] == '/',
    ensures
        !climbs(folded(path).skip(at + 1)),
{
    let pieces = text::split(path, '/');
    let kept = walked(pieces.skip(1));
    let parts = seq![pieces[0]] + kept;
    let place = folded(path);
    let rest = place.skip(at + 1);
    reveal(folded);
    text::lemma_split_pieces(path, '/');
    lemma_walked(pieces.skip(1));
    assert forall|i: int| 0 <= i < parts.len() implies text::is_free_of(
        #[trigger] parts[i],
        '/',
    ) by {
        if i == 0 {
            assert(text::is_free_of(pieces[0], '/'));
        } else {
            assert(parts[i] == kept[i - 1]);
            let j = choose|j: int|
                0 <= j < pieces.skip(1).len() && pieces.skip(1)[j] == kept[i - 1];
            assert(text::is_free_of(pieces[j + 1], '/'));
        }
    }
    text::lemma_split_joined(parts, '/');
    assert(place =~= place.take(at).push('/') + rest);
    text::lemma_split_between(place.take(at), rest, '/');
    text::lemma_split_pieces(place.take(at), '/');
    let head = text::split(place.take(at), '/');
    let tail = text::split(rest, '/');
    assert(head + tail == parts);
    if tail.contains(".."@) {
        let j = choose|j: int| 0 <= j < tail.len() && tail[j] == ".."@;
        assert((head + tail)[head.len() + j] == ".."@);
        assert(kept[head.len() + j - 1] == ".."@);
    }
}

/// What follows a slash in a path that does not lead up does not either.
proof fn lemma_rest_climbs(path: Seq<char>, at: int)
    requires
        0 <= at < path.len(),
        path[at] == '/',
        !climbs(path),
    ensures
        !climbs(path.skip(at + 1)),
{
    let rest = path.skip(at + 1);
    let head = text::split(path.take(at), '/');
    let tail = text::split(rest, '/');
    assert(path =~= path.take(at).push('/') + rest);
    text::lemma_split_between(path.take(at), rest, '/');
    if tail.contains(".."@) {
        let j = choose|j: int| 0 <= j < tail.len() && tail[j] == ".."@;
        assert((head + tail)[head.len() + j] == ".."@);
    }
}

/// A path that does not lead up does not with a slash before it either.
proof fn lemma_slash_climbs(path: Seq<char>)
    requires
        !climbs(path),
    ensures
        !climbs(seq!['/'] + path),
{
    let none = Seq::<char>::empty();
    assert(seq!['/'] + path =~= none.push('/') + path);
    text::lemma_split_between(none, path, '/');
    reveal_strlit("..");
    let all = text::split(none, '/') + text::split(path, '/');
    if all.contains(".."@) {
        let j = choose|j: int| 0 <= j < all.len() && all[j] == ".."@;
        assert(text::split(path, '/')[j - 1] == ".."@);
    }
}

/// A place that has an output is called by it and lies below the project or the
/// workspace; one that has none lies below neither.
proof fn lemma_output_at(place: Seq<char>, project: Seq<char>, workspace: Seq<char>)
    ensures
        match output_at(place, project, workspace) {
            Some(path) => lies_at(place, project, workspace, path),
            None => !begins_with_ci(place, project) && !begins_with_ci(place, workspace),
        },
{
    match output_at(place, project, workspace) {
        Some(path) => {
            if begins_with_ci(place, project) {
                assert(place =~= place.take(project.len() as int).push('/') + path);
            } else {
                assert(place =~= place.take(workspace.len() as int) + path);
            }
        },
        None => {},
    }
}

/// A resolved output never leads up, so it stays inside what it is relative to: it is a
/// relative path as it was given, or names the place that the path leads to, which lies
/// below the project or the workspace. A path that leads elsewhere is not resolved.
pub proof fn law_resolved_output_stays_inside(
    raw: Seq<char>,
    project_dir: Seq<char>,
    workspace_dir: Seq<char>,
)
    ensures
        ({
            let value = forward_path(raw);
            let project = forward_path(project_dir);
            let workspace = forward_path(workspace_dir);
            match resolved_output(raw, project_dir, workspace_dir) {
                Some(path) => {
                    &&& !climbs(path)
                    &&& if climbs(value) {
                        lies_at(
                            place_of(value, project),
                            folded(project),
                            folded(workspace),
                            path,
                        )
                    } else if is_absolute(value) {
                        lies_at(value, project, workspace, path)
                    } else {
                        path == value
                    }
                },
                None => {
                    ||| value.len() == 0
                    ||| climbs(value) && !begins_with_ci(place_of(value, project), folded(project))
                        && !begins_with_ci(place_of(value, project), folded(workspace))
                    ||| !climbs(value) && is_absolute(value) && !begins_with_ci(value, project)
                        && !begins_with_ci(value, workspace)
                },
            }
        }),
{
    let value = forward_path(raw);
    let project = forward_path(project_dir);
    let workspace = forward_path(workspace_dir);
    if value.len() > 0 && climbs(value) {
        let place = place_of(value, project);
        let near = folded(project);
        let far = folded(workspace);
        let whole = if is_absolute(value) { value } else { project.push('/') + value };
        assert(place == folded(whole));
        lemma_output_at(place, near, far);
        if begins_with_ci(place, near) {
            lemma_folded_below(whole, near.len() as int);
        } else if begins_with_ci(place, far) {
            lemma_folded_below(whole, far.len() as int);
            lemma_slash_climbs(place.skip(far.len() as int + 1));
        }
    } else if value.len() > 0 && is_absolute(value) {
        lemma_output_at(value, project, workspace);
        if begins_with_ci(value, project) {
            lemma_rest_climbs(value, project.len() as int);
        } else if begins_with_ci(value, workspace) {
            lemma_rest_climbs(value, workspace.len() as int);
            lemma_slash_climbs(value.skip(workspace.len() as int + 1));
        }
    }
}

// ---------------------------------------------------------------------------
// Tasks
// ---------------------------------------------------------------------------

#[verifier::external_type_specification]
#[verifier::external_body]
pub struct ExInput(moon_config::Input);

#[verifier::external_type_specification]
#[verifier::external_body]
pub struct ExOutput(moon_config::Output);

#[verifier::external_type_specification]
#[verifier::external_body]
pub struct ExTarget(moon_target::Target);

#[verifier::external_type_specification]
#[verifier::external_body]
pub struct ExParseError(schematic::ParseError);

/// The task input that a text denotes, if it denotes one.
pub uninterp spec fn input_of(content: Seq<char>) -> Option<moon_config::Input>;

/// The task output that a text denotes, if it denotes one.
pub uninterp spec fn output_of(content: Seq<char>) -> Option<moon_config::Output>;

/// The target that a text denotes, if it denotes one.
pub uninterp spec fn target_of(content: Seq<char>) -> Option<moon_target::Target>;

/// `moon_config::Input::parse`: reads a task input, and fails on exactly the texts
/// that denote none. What a text denotes depends on the text alone.
#[verifier::external_body]
fn parse_input(content: &str) -> (r: Result<moon_config::Input, schematic::ParseError>)
    ensures
        match r {
            Ok(input) => input_of(content@) == Some(input),
            Err(_) => input_of(content@) is None,
        },
{
    moon_config::Input::parse(content)
}

/// `moon_config::Output::parse`: reads a task output, and fails on exactly the texts
/// that denote none. What a text denotes depends on the text alone.
#[verifier::external_body]
fn parse_output(content: &str) -> (r: Result<moon_config::Output, schematic::ParseError>)
    ensures
        match r {
            Ok(output) => output_of(content@) == Some(output),
            Err(_) => output_of(content@) is None,
        },
{
    moon_config::Output::parse(content)
}

/// `moon_target::Target::parse`: reads a target, and fails on exactly the texts that
/// denote none, here with the message of its error. What a text denotes depends on
/// the text alone.
#[verifier::external_body]
fn parse_target(content: &str) -> (r: Result<moon_target::Target, String>)
    ensures
        match r {
            Ok(target) => target_of(content@) == Some(target),
            Err(_) => target_of(content@) is None,
        },
{
    moon_target::Target::parse(content).map_err(|error| error.to_string())
}

/// A task that another one runs after.
#[derive(Debug, PartialEq, Eq)]
pub enum TaskDependency {
    /// The target must exist, unless its scope says otherwise.
    Target(moon_target::Target),
    /// The target may be missing.
    Optional(moon_target::Target),
}

/// The options that inference sets on a task.
#[derive(Debug, PartialEq, Eq, Structural, Clone, Copy)]
pub struct TaskOptions {
    pub cache: Option<bool>,
    pub run_in_ci: Option<bool>,
}

/// An inferred task.
#[derive(Debug, PartialEq, Eq)]
pub struct InferredTask {
    /// The program and its arguments.
    pub command: Vec<String>,
    pub deps: Option<Vec<TaskDependency>>,
    pub description: String,
    pub inputs: Option<Vec<moon_config::Input>>,
    pub outputs: Option<Vec<moon_config::Output>>,
    pub options: Option<TaskOptions>,
}

/// What an inferred task says.
#[verifier::ext_equal]
pub struct TaskView {
    pub command: Seq<Seq<char>>,
    pub deps: Option<Seq<TaskDependency>>,
    pub description: Seq<char>,
    pub inputs: Option<Seq<moon_config::Input>>,
    pub outputs: Option<Seq<moon_config::Output>>,
    pub options: Option<TaskOptions>,
}

impl View for InferredTask {
    type V = TaskView;

    open spec fn view(&self) -> TaskView {
        TaskView {
            command: text::views(self.command@),
            deps: match self.deps {
                Some(deps) => Some(deps@),
                None => None,
            },
            description: self.description@,
            inputs: match self.inputs {
                Some(inputs) => Some(inputs@),
                None => None,
            },
            outputs: match self.outputs {
                Some(outputs) => Some(outputs@),
                None => None,
            },
            options: self.options,
        }
    }
}

impl DeepView for InferredTask {
    type V = TaskView;

    open spec fn deep_view(&self) -> TaskView {
        self.view()
    }
}

/// Why tasks could not be inferred.
#[derive(Debug)]
pub enum TaskError {
    /// An evaluated directory makes no task input.
    Input(schematic::ParseError),
    /// An evaluated directory makes no task output.
    Output(schematic::ParseError),
    /// A dependency is no target.
    Target(String),
}

/// Everything task inference needs to know about one MSBuild project.
pub struct InferInputs<'a> {
    pub evaluation: &'a MsbuildEvaluation,
    /// Project file name to pass explicitly in commands when the project
    /// directory holds more than one MSBuild project file (bare `dotnet
    /// build` would otherwise error on ambiguity).
    pub explicit_project_file: Option<&'a str>,
    /// Host-real absolute path of the project directory (for making
    /// evaluated output paths project-relative). Forward or back slashes.
    pub project_dir: &'a str,
    /// Host-real absolute path of the workspace root.
    pub workspace_dir: &'a str,
    /// Whether the `global.json` governing this project selects
    /// Microsoft.Testing.Platform for `dotnet test`. A project can also opt
    /// in on its own via `TestingPlatformDotnetTestSupport`, which is read
    /// from the evaluation.
    pub test_platform_runner: bool,
}

/// What [`InferInputs`] say.
pub struct InferView {
    pub evaluation: EvalView,
    pub file: Option<Seq<char>>,
    pub project_dir: Seq<char>,
    pub workspace_dir: Seq<char>,
    pub test_platform_runner: bool,
}

impl<'a> View for InferInputs<'a> {
    type V = InferView;

    open spec fn view(&self) -> InferView {
        InferView {
            evaluation: self.evaluation@,
            file: match self.explicit_project_file {
                Some(file) => Some(file@),
                None => None,
            },
            project_dir: self.project_dir@,
            workspace_dir: self.workspace_dir@,
            test_platform_runner: self.test_platform_runner,
        }
    }
}

impl InferView {
    /// The moon task output for the directory that a property holds.
    pub open spec fn output_dir(self, property: Seq<char>) -> Option<Seq<char>> {
        resolved_output(
            self.evaluation.property(property),
            self.project_dir,
            self.workspace_dir,
        )
    }

    /// A test project: one that says so, or that references the test SDK.
    /// `IsTestProject` is set by Microsoft.NET.Test.Sdk's build props, which
    /// are only imported after a restore, so unrestored projects are told by the
    /// package reference itself.
    pub open spec fn is_test(self) -> bool {
        ||| text::same_ignoring_ascii_case(self.evaluation.property("IsTestProject"@), "true"@)
        ||| references_test_sdk(self.evaluation.package_references())
    }

    /// An application that is no test project.
    pub open spec fn is_exe(self) -> bool {
        !self.is_test() && (text::same_ignoring_ascii_case(
            self.evaluation.property("OutputType"@),
            "Exe"@,
        ) || text::same_ignoring_ascii_case(self.evaluation.property("OutputType"@), "WinExe"@))
    }

    /// The project targets one framework.
    pub open spec fn is_single_tfm(self) -> bool {
        self.evaluation.property("TargetFrameworks"@).len() == 0
    }

    /// `dotnet test` runs the project under Microsoft.Testing.Platform.
    pub open spec fn uses_test_platform(self) -> bool {
        ||| self.test_platform_runner
        ||| text::same_ignoring_ascii_case(
            self.evaluation.property("TestingPlatformDotnetTestSupport"@),
            "true"@,
        )
    }

    /// The configuration that the evaluation saw.
    pub open spec fn configuration(self) -> Seq<char> {
        self.evaluation.property("Configuration"@)
    }
}

/// One of the packages is the test SDK, in any ASCII case.
pub open spec fn references_test_sdk(packages: Map<Seq<char>, Seq<char>>) -> bool {
    exists|name: Seq<char>| #[trigger]
        packages.contains_key(name) && text::same_ignoring_ascii_case(
            name,
            "Microsoft.NET.Test.Sdk"@,
        )
}

/// A list with the file in it, where there is one.
pub open spec fn optional_file(file: Option<Seq<char>>) -> Seq<Seq<char>> {
    match file {
        Some(file) => seq![file],
        None => Seq::empty(),
    }
}

/// A `dotnet` command line.
pub open spec fn command_line(
    verb: Seq<char>,
    file: Option<Seq<char>>,
    extra_args: Seq<Seq<char>>,
) -> Seq<Seq<char>> {
    seq!["dotnet"@, verb] + optional_file(file) + extra_args
}

/// A command line with the configuration pinned, where there is one.
pub open spec fn pinned(command: Seq<Seq<char>>, configuration: Seq<char>) -> Seq<Seq<char>> {
    if configuration.len() == 0 {
        command
    } else {
        command.push("-c"@).push(configuration)
    }
}

/// A `dotnet` command line.
fn command(verb: &str, project_file: Option<&str>, extra_args: &[&str]) -> (r: Vec<String>)
    ensures
        text::views(r@) == command_line(
            verb@,
            match project_file {
                Some(file) => Some(file@),
                None => None,
            },
            extra_args@.map_values(|arg: &str| arg@),
        ),
{
    let mut list: Vec<String> = Vec::new();
    text::push_owned(&mut list, "dotnet");
    text::push_owned(&mut list, verb);
    if let Some(file) = project_file {
        text::push_owned(&mut list, file);
    }
    let ghost start = text::views(list@);
    let ghost args = extra_args@.map_values(|arg: &str| arg@);
    for i in 0..extra_args.len()
        invariant
            args == extra_args@.map_values(|arg: &str| arg@),
            text::views(list@) == start + args.take(i as int),
    {
        text::push_owned(&mut list, extra_args[i]);
        assert(text::views(list@) =~= start + args.take(i + 1));
    }
    assert(args.take(args.len() as int) =~= args);
    assert(text::views(list@) =~= command_line(
        verb@,
        match project_file {
            Some(file) => Some(file@),
            None => None,
        },
        args,
    ));
    list
}

/// Pin the evaluated `Configuration` on cacheable commands. `dotnet build`
/// defaults to Debug but `dotnet publish` defaults to Release (.NET 8+), so
/// without an explicit `-c` a `publish --no-build` would look for outputs a
/// `build` never produced. Passing the configuration the evaluation itself
/// saw keeps every command consistent with the evaluated output paths,
/// including repos that set `Configuration` in `Directory.Build.props`.
fn pin_configuration(command: &mut Vec<String>, configuration: &str)
    ensures
        text::views(final(command)@) == pinned(text::views(old(command)@), configuration@),
{
    if !configuration.is_empty() {
        text::push_owned(command, "-c");
        text::push_owned(command, configuration);
    }
}

/// What kind of thing could not be read.
pub enum TaskFault {
    Input,
    Output,
    Target,
}

impl TaskError {
    /// What kind of thing could not be read.
    pub open spec fn fault(self) -> TaskFault {
        match self {
            TaskError::Input(_) => TaskFault::Input,
            TaskError::Output(_) => TaskFault::Output,
            TaskError::Target(_) => TaskFault::Target,
        }
    }
}

/// The pattern that leaves a directory out.
pub open spec fn excluded(dir: Option<Seq<char>>) -> Seq<Seq<char>> {
    match dir {
        Some(dir) => seq!["!"@ + dir + "/**"@],
        None => Seq::empty(),
    }
}

/// The inputs of cacheable tasks: everything in the project except the evaluated
/// output and intermediate directories.
pub open spec fn stable_input_texts(project: InferView) -> Seq<Seq<char>> {
    seq!["**/*"@] + excluded(project.output_dir("BaseOutputPath"@)) + excluded(
        project.output_dir("BaseIntermediateOutputPath"@),
    )
}

/// The task inputs that the texts denote, if each denotes one.
pub open spec fn parsed_inputs(texts: Seq<Seq<char>>) -> Option<Seq<moon_config::Input>> {
    if forall|i: int| 0 <= i < texts.len() ==> input_of(#[trigger] texts[i]) is Some {
        Some(texts.map_values(|content: Seq<char>| input_of(content)->Some_0))
    } else {
        None
    }
}

/// The inputs of cacheable tasks.
pub open spec fn stable_task_inputs(project: InferView) -> Option<Seq<moon_config::Input>> {
    parsed_inputs(stable_input_texts(project))
}

/// Appends the pattern that leaves out the directory that a property holds.
fn push_excluded(list: &mut Vec<String>, inputs: &InferInputs, property: &str)
    ensures
        text::views(final(list)@) == text::views(old(list)@) + excluded(
            inputs@.output_dir(property@),
        ),
{
    let ghost was = text::views(list@);
    match resolve_output_path(
        inputs.evaluation.property(property),
        inputs.project_dir,
        inputs.workspace_dir,
    ) {
        Some(dir) => {
            let mut pattern = text::chars_of("!");
            text::push_text(&mut pattern, dir.as_str());
            text::push_text(&mut pattern, "/**");
            text::push_owned(list, text::string_of(&pattern).as_str());
            assert(text::views(list@) =~= was + excluded(inputs@.output_dir(property@)));
        },
        None => {
            assert(text::views(list@) =~= was + excluded(inputs@.output_dir(property@)));
        },
    }
}

/// The patterns of the inputs of cacheable tasks.
pub fn stable_input_patterns(inputs: &InferInputs) -> (r: Vec<String>)
    ensures
        text::views(r@) == stable_input_texts(inputs@),
{
    let mut patterns: Vec<String> = Vec::new();
    text::push_owned(&mut patterns, "**/*");
    push_excluded(&mut patterns, inputs, "BaseOutputPath");
    push_excluded(&mut patterns, inputs, "BaseIntermediateOutputPath");
    assert(text::views(patterns@) =~= stable_input_texts(inputs@));
    patterns
}

/// Inputs for cacheable tasks: everything in the project EXCEPT the
/// evaluated output and intermediate directories. moon's default `**/*`
/// would otherwise hash `obj/` (which MSBuild mutates on every build), so
/// task hashes would never stabilize and nothing would ever be a cache hit.
fn stable_inputs(inputs: &InferInputs) -> (r: Result<Vec<moon_config::Input>, TaskError>)
    ensures
        match r {
            Ok(list) => stable_task_inputs(inputs@) == Some(list@),
            Err(error) => error is Input && stable_task_inputs(inputs@) is None,
        },
{
    let patterns = stable_input_patterns(inputs);
    let ghost texts = stable_input_texts(inputs@);
    let mut list: Vec<moon_config::Input> = Vec::new();
    for i in 0..patterns.len()
        invariant
            text::views(patterns@) == texts,
            texts == stable_input_texts(inputs@),
            list@.len() == i,
            forall|j: int| 0 <= j < i ==> input_of(#[trigger] texts[j]) == Some(list@[j]),
    {
        assert(texts[i as int] == patterns@[i as int]@);
        match parse_input(patterns[i].as_str()) {
            Ok(input) => {
                list.push(input);
            },
            Err(error) => {
                return Err(TaskError::Input(error));
            },
        }
    }
    assert(texts.len() == patterns@.len());
    assert(list@ =~= texts.map_values(|content: Seq<char>| input_of(content)->Some_0));
    Ok(list)
}

/// A task with its evaluated outputs, or with caching disabled where they could not
/// be determined.
pub open spec fn with_outputs(task: TaskView, dir: Option<Seq<char>>) -> Result<
    TaskView,
    TaskFault,
> {
    match dir {
        Some(path) => match output_of(path) {
            Some(output) => Ok(TaskView { outputs: Some(seq![output]), ..task }),
            None => Err(TaskFault::Output),
        },
        None => Ok(
            TaskView {
                options: Some(
                    TaskOptions {
                        cache: Some(false),
                        run_in_ci: match task.options {
                            Some(options) => options.run_in_ci,
                            None => None,
                        },
                    },
                ),
                ..task
            },
        ),
    }
}

/// Give a task its evaluated outputs, or disable caching when they could
/// not be determined (never cache the wrong directory).
fn apply_outputs(task: InferredTask, outputs: Option<String>) -> (r: Result<
    InferredTask,
    TaskError,
>)
    ensures
        ({
            let dir = match outputs {
                Some(path) => Some(path@),
                None => None,
            };
            match r {
                Ok(done) => with_outputs(task@, dir) == Ok::<TaskView, TaskFault>(done@),
                Err(error) => with_outputs(task@, dir) == Err::<TaskView, TaskFault>(error.fault()),
            }
        }),
{
    let ghost before = task@;
    let mut task = task;
    match outputs {
        Some(path) => match parse_output(path.as_str()) {
            Ok(output) => {
                let mut list: Vec<moon_config::Output> = Vec::new();
                list.push(output);
                assert(list@ =~= seq![output]);
                task.outputs = Some(list);
                assert(task@ =~= TaskView { outputs: Some(seq![output]), ..before });
                Ok(task)
            },
            Err(error) => Err(TaskError::Output(error)),
        },
        None => {
            let run_in_ci = match &task.options {
                Some(options) => options.run_in_ci,
                None => None,
            };
            task.options = Some(TaskOptions { cache: Some(false), run_in_ci });
            Ok(task)
        },
    }
}

/// The `build` task: `--no-dependencies`, so that moon's task graph (`^:build`)
/// orchestrates upstream builds and caches each project independently.
pub open spec fn build_task(project: InferView, inputs: Seq<moon_config::Input>) -> Result<
    TaskView,
    TaskFault,
> {
    match target_of("^:build"@) {
        None => Err(TaskFault::Target),
        Some(target) => with_outputs(
            TaskView {
                command: pinned(
                    command_line(
                        "build"@,
                        project.file,
                        seq!["--no-restore"@, "--no-dependencies"@],
                    ),
                    project.configuration(),
                ),
                deps: Some(seq![TaskDependency::Target(target)]),
                description: "Builds the project. Upstream projects build through moon task deps. (inferred)"@,
                inputs: Some(inputs),
                outputs: None,
                options: None,
            },
            project.output_dir("BaseOutputPath"@),
        ),
    }
}

/// The command line of the `test` task. Microsoft.Testing.Platform's `dotnet test`
/// takes the project through `--project` and rejects a positional path; classic
/// VSTest mode is the exact opposite and rejects `--project`, so the flavour has to
/// match the runner.
pub open spec fn test_command(project: InferView) -> Seq<Seq<char>> {
    if project.file is Some && project.uses_test_platform() {
        command_line(
            "test"@,
            None,
            seq!["--project"@, project.file->Some_0, "--no-build"@, "--no-restore"@],
        )
    } else {
        command_line("test"@, project.file, seq!["--no-build"@, "--no-restore"@])
    }
}

/// The `test` task.
pub open spec fn test_task(project: InferView, inputs: Seq<moon_config::Input>) -> Result<
    TaskView,
    TaskFault,
> {
    match target_of("~:build"@) {
        None => Err(TaskFault::Target),
        Some(target) => Ok(
            TaskView {
                command: pinned(test_command(project), project.configuration()),
                deps: Some(seq![TaskDependency::Optional(target)]),
                description: "Runs tests against the built assemblies. (inferred)"@,
                inputs: Some(inputs),
                outputs: None,
                options: None,
            },
        ),
    }
}

/// The `run` task: never cached, never in CI.
pub open spec fn run_task(project: InferView) -> TaskView {
    TaskView {
        command: command_line(
            "run"@,
            None,
            match project.file {
                Some(file) => seq!["--project"@, file],
                None => Seq::empty(),
            },
        ),
        deps: None,
        description: "Runs the application locally. (inferred)"@,
        inputs: None,
        outputs: None,
        options: Some(TaskOptions { cache: Some(false), run_in_ci: Some(false) }),
    }
}

/// The `publish` task.
pub open spec fn publish_task(project: InferView, inputs: Seq<moon_config::Input>) -> Result<
    TaskView,
    TaskFault,
> {
    match target_of("~:build"@) {
        None => Err(TaskFault::Target),
        Some(target) => with_outputs(
            TaskView {
                command: pinned(
                    command_line("publish"@, project.file, seq!["--no-build"@, "--no-restore"@]),
                    project.configuration(),
                ),
                deps: Some(seq![TaskDependency::Optional(target)]),
                description: "Publishes the built application. (inferred)"@,
                inputs: Some(inputs),
                outputs: None,
                options: None,
            },
            project.output_dir("PublishDir"@),
        ),
    }
}

/// Infers the `build` task.
fn infer_build(inputs: &InferInputs, hash_inputs: Vec<moon_config::Input>) -> (r: Result<
    InferredTask,
    TaskError,
>)
    ensures
        match r {
            Ok(task) => build_task(inputs@, hash_inputs@) == Ok::<TaskView, TaskFault>(task@),
            Err(error) => build_task(inputs@, hash_inputs@) == Err::<TaskView, TaskFault>(
                error.fault(),
            ),
        },
{
    let mut build_command = command(
        "build",
        inputs.explicit_project_file,
        &["--no-restore", "--no-dependencies"],
    );
    pin_configuration(&mut build_command, inputs.evaluation.property("Configuration"));
    let target = match parse_target("^:build") {
        Ok(target) => target,
        Err(message) => {
            return Err(TaskError::Target(message));
        },
    };
    let mut deps: Vec<TaskDependency> = Vec::new();
    deps.push(TaskDependency::Target(target));
    let task = InferredTask {
        command: build_command,
        deps: Some(deps),
        description: text::owned(
            "Builds the project. Upstream projects build through moon task deps. (inferred)",
        ),
        inputs: Some(hash_inputs),
        outputs: None,
        options: None,
    };
    assert(task@.command =~= pinned(
        command_line("build"@, inputs@.file, seq!["--no-restore"@, "--no-dependencies"@]),
        inputs@.configuration(),
    )) by {
        assert((&["--no-restore", "--no-dependencies"])@.map_values(|arg: &str| arg@)
            =~= seq!["--no-restore"@, "--no-dependencies"@]);
    }
    assert(task@.deps == Some(seq![TaskDependency::Target(target)]));
    apply_outputs(
        task,
        resolve_output_path(
            inputs.evaluation.property("BaseOutputPath"),
            inputs.project_dir,
            inputs.workspace_dir,
        ),
    )
}

/// Infers the `test` task.
fn infer_test(inputs: &InferInputs, hash_inputs: Vec<moon_config::Input>) -> (r: Result<
    InferredTask,
    TaskError,
>)
    ensures
        match r {
            Ok(task) => test_task(inputs@, hash_inputs@) == Ok::<TaskView, TaskFault>(task@),
            Err(error) => test_task(inputs@, hash_inputs@) == Err::<TaskView, TaskFault>(
                error.fault(),
            ),
        },
{
    let uses_test_platform = inputs.test_platform_runner || text::eq_ignore_ascii_case(
        inputs.evaluation.property("TestingPlatformDotnetTestSupport"),
        "true",
    );
    let mut test_command_line = match inputs.explicit_project_file {
        Some(file) if uses_test_platform => {
            let list = command("test", None, &["--project", file, "--no-build", "--no-restore"]);
            assert((&["--project", file, "--no-build", "--no-restore"])@.map_values(
                |arg: &str| arg@,
            ) =~= seq!["--project"@, file@, "--no-build"@, "--no-restore"@]);
            list
        },
        file => {
            let list = command("test", file, &["--no-build", "--no-restore"]);
            assert((&["--no-build", "--no-restore"])@.map_values(|arg: &str| arg@)
                =~= seq!["--no-build"@, "--no-restore"@]);
            list
        },
    };
    assert(text::views(test_command_line@) =~= test_command(inputs@));
    pin_configuration(&mut test_command_line, inputs.evaluation.property("Configuration"));
    let target = match parse_target("~:build") {
        Ok(target) => target,
        Err(message) => {
            return Err(TaskError::Target(message));
        },
    };
    let mut deps: Vec<TaskDependency> = Vec::new();
    deps.push(TaskDependency::Optional(target));
    let task = InferredTask {
        command: test_command_line,
        deps: Some(deps),
        description: text::owned("Runs tests against the built assemblies. (inferred)"),
        inputs: Some(hash_inputs),
        outputs: None,
        options: None,
    };
    assert(task@.deps == Some(seq![TaskDependency::Optional(target)]));
    Ok(task)
}

/// Infers the `run` task.
fn infer_run(inputs: &InferInputs) -> (r: InferredTask)
    ensures
        r@ == run_task(inputs@),
{
    let run_command = match inputs.explicit_project_file {
        Some(file) => {
            let list = command("run", None, &["--project", file]);
            assert((&["--project", file])@.map_values(|arg: &str| arg@)
                =~= seq!["--project"@, file@]);
            list
        },
        None => {
            let list = command("run", None, &[]);
            assert(text::views(list@) =~= command_line("run"@, None, Seq::empty()));
            list
        },
    };
    InferredTask {
        command: run_command,
        deps: None,
        description: text::owned("Runs the application locally. (inferred)"),
        inputs: None,
        outputs: None,
        options: Some(TaskOptions { cache: Some(false), run_in_ci: Some(false) }),
    }
}

/// Infers the `publish` task.
fn infer_publish(inputs: &InferInputs, hash_inputs: Vec<moon_config::Input>) -> (r: Result<
    InferredTask,
    TaskError,
>)
    ensures
        match r {
            Ok(task) => publish_task(inputs@, hash_inputs@) == Ok::<TaskView, TaskFault>(task@),
            Err(error) => publish_task(inputs@, hash_inputs@) == Err::<TaskView, TaskFault>(
                error.fault(),
            ),
        },
{
    let mut publish_command = command(
        "publish",
        inputs.explicit_project_file,
        &["--no-build", "--no-restore"],
    );
    pin_configuration(&mut publish_command, inputs.evaluation.property("Configuration"));
    let target = match parse_target("~:build") {
        Ok(target) => target,
        Err(message) => {
            return Err(TaskError::Target(message));
        },
    };
    let mut deps: Vec<TaskDependency> = Vec::new();
    deps.push(TaskDependency::Optional(target));
    let task = InferredTask {
        command: publish_command,
        deps: Some(deps),
        description: text::owned("Publishes the built application. (inferred)"),
        inputs: Some(hash_inputs),
        outputs: None,
        options: None,
    };
    assert(task@.command =~= pinned(
        command_line("publish"@, inputs@.file, seq!["--no-build"@, "--no-restore"@]),
        inputs@.configuration(),
    )) by {
        assert((&["--no-build", "--no-restore"])@.map_values(|arg: &str| arg@)
            =~= seq!["--no-build"@, "--no-restore"@]);
    }
    assert(task@.deps == Some(seq![TaskDependency::Optional(target)]));
    apply_outputs(
        task,
        resolve_output_path(
            inputs.evaluation.property("PublishDir"),
            inputs.project_dir,
            inputs.workspace_dir,
        ),
    )
}

/// Whether one of the packages is the test SDK.
fn has_test_sdk(packages: &StrMap<String>) -> (r: bool)
    ensures
        r == references_test_sdk(packages@),
{
    let names = packages.keys();
    let ghost ns = text::views(names@);
    for i in 0..names.len()
        invariant
            ns == text::views(names@),
            crate::str_map::enumerates(ns, packages@.dom()),
            forall|j: int|
                0 <= j < i ==> !text::same_ignoring_ascii_case(
                    #[trigger] ns[j],
                    "Microsoft.NET.Test.Sdk"@,
                ),
    {
        assert(ns[i as int] == names@[i as int]@);
        if text::eq_ignore_ascii_case(names[i].as_str(), "Microsoft.NET.Test.Sdk") {
            assert(ns.contains(ns[i as int]));
            assert(packages@.dom().contains(ns[i as int]));
            assert(packages@.contains_key(ns[i as int]));
            return true;
        }
    }
    assert forall|name: Seq<char>| #[trigger]
        packages@.contains_key(name) implies !text::same_ignoring_ascii_case(
        name,
        "Microsoft.NET.Test.Sdk"@,
    ) by {
        assert(packages@.dom().contains(name));
        let j = choose|j: int| 0 <= j < ns.len() && ns[j] == name;
        assert(!text::same_ignoring_ascii_case(ns[j], "Microsoft.NET.Test.Sdk"@));
    }
    false
}

/// The tasks so far with one more, where it is wanted.
pub open spec fn with_task(
    tasks: Result<Map<Seq<char>, TaskView>, TaskFault>,
    wanted: bool,
    id: Seq<char>,
    task: Result<TaskView, TaskFault>,
) -> Result<Map<Seq<char>, TaskView>, TaskFault> {
    match tasks {
        Err(fault) => Err(fault),
        Ok(tasks) => if !wanted {
            Ok(tasks)
        } else {
            match task {
                Ok(task) => Ok(tasks.insert(id, task)),
                Err(fault) => Err(fault),
            }
        },
    }
}

/// A task is inferred only where the setting selects it and no inherited task file
/// defines it.
pub open spec fn is_wanted(
    setting: InferTasksSetting,
    reserved_ids: Seq<Seq<char>>,
    task: Seq<char>,
) -> bool {
    setting.selects(task) && !reserved_ids.contains(task)
}

/// The tasks inferred for a project, by id.
pub open spec fn inferred_tasks(
    setting: InferTasksSetting,
    reserved_ids: Seq<Seq<char>>,
    project: InferView,
) -> Result<Map<Seq<char>, TaskView>, TaskFault> {
    match stable_task_inputs(project) {
        None => Err(TaskFault::Input),
        Some(inputs) => with_task(
            with_task(
                with_task(
                    with_task(
                        Ok(Map::empty()),
                        is_wanted(setting, reserved_ids, "build"@),
                        "build"@,
                        build_task(project, inputs),
                    ),
                    project.is_test() && is_wanted(setting, reserved_ids, "test"@),
                    "test"@,
                    test_task(project, inputs),
                ),
                project.is_exe() && is_wanted(setting, reserved_ids, "run"@),
                "run"@,
                Ok(run_task(project)),
            ),
            project.is_exe() && project.is_single_tfm() && is_wanted(
                setting,
                reserved_ids,
                "publish"@,
            ),
            "publish"@,
            publish_task(project, inputs),
        ),
    }
}

/// Infer `build` / `test` / `run` / `publish` tasks from one project's
/// MSBuild evaluation.
///
/// - `build`: every project; `--no-dependencies` so moon's task graph
///   (`deps: ^:build`) orchestrates upstream builds and caches each project
///   independently (MSBuild resolves `ProjectReference`s from the
///   upstream `bin` output without rebuilding them).
/// - `test`: projects with `IsTestProject=true` or a `Microsoft.NET.Test.Sdk`
///   reference; `--no-build` on top of a `build` dep.
/// - `run`: `Exe`/`WinExe` non-test projects; never cached, never in CI.
/// - `publish`: `Exe`/`WinExe` non-test single-TFM projects (multi-TFM
///   `dotnet publish` requires an explicit `-f`); `--no-build` on top of a
///   `build` dep.
///
/// `restore` is deliberately NOT a task: moon models it as the
/// install-dependencies action (with `--locked-mode`), which runs before
/// tasks, hence `--no-restore` everywhere.
///
/// `reserved_ids` (task ids from applicable inherited task files) are
/// skipped entirely: moon merges plugin tasks over inherited tasks with
/// args-append semantics, which produces garbage commands. Yielding is the
/// only safe move. Project-level `moon.yml` tasks need no such handling;
/// moon itself guarantees they win over plugin tasks.
pub fn infer_tasks(
    setting: &InferTasksSetting,
    reserved_ids: &[String],
    inputs: &InferInputs,
) -> (r: Result<StrMap<InferredTask>, TaskError>)
    ensures
        match r {
            Ok(tasks) => inferred_tasks(*setting, text::views(reserved_ids@), inputs@) == Ok::<
                Map<Seq<char>, TaskView>,
                TaskFault,
            >(tasks@),
            Err(error) => inferred_tasks(*setting, text::views(reserved_ids@), inputs@) == Err::<
                Map<Seq<char>, TaskView>,
                TaskFault,
            >(error.fault()),
        },
{
    let mut tasks: StrMap<InferredTask> = StrMap::new();
    let evaluation = inputs.evaluation;
    let is_test = text::eq_ignore_ascii_case(evaluation.property("IsTestProject"), "true")
        || has_test_sdk(&evaluation.package_references());
    let output_type = evaluation.property("OutputType");
    let is_exe = !is_test && (text::eq_ignore_ascii_case(output_type, "Exe")
        || text::eq_ignore_ascii_case(output_type, "WinExe"));
    let is_single_tfm = evaluation.property("TargetFrameworks").is_empty();

    let hash_inputs = match stable_inputs(inputs) {
        Ok(list) => list,
        Err(error) => {
            return Err(error);
        },
    };

    if setting.includes("build") && !text::list_contains(reserved_ids, "build") {
        match infer_build(inputs, hash_inputs) {
            Ok(task) => {
                tasks.insert(text::owned("build"), task);
            },
            Err(error) => {
                return Err(error);
            },
        }
    }
    if is_test && setting.includes("test") && !text::list_contains(reserved_ids, "test") {
        let hash_inputs = match stable_inputs(inputs) {
            Ok(list) => list,
            Err(error) => {
                return Err(error);
            },
        };
        match infer_test(inputs, hash_inputs) {
            Ok(task) => {
                tasks.insert(text::owned("test"), task);
            },
            Err(error) => {
                return Err(error);
            },
        }
    }
    if is_exe && setting.includes("run") && !text::list_contains(reserved_ids, "run") {
        tasks.insert(text::owned("run"), infer_run(inputs));
    }
    if is_exe && is_single_tfm && setting.includes("publish") && !text::list_contains(
        reserved_ids,
        "publish",
    ) {
        let hash_inputs = match stable_inputs(inputs) {
            Ok(list) => list,
            Err(error) => {
                return Err(error);
            },
        };
        match infer_publish(inputs, hash_inputs) {
            Ok(task) => {
                tasks.insert(text::owned("publish"), task);
            },
            Err(error) => {
                return Err(error);
            },
        }
    }
    Ok(tasks)
}

// ---------------------------------------------------------------------------
// What holds of inferred tasks
// ---------------------------------------------------------------------------

proof fn lemma_ids_differ()
    ensures
        "build"@ != "test"@,
        "build"@ != "run"@,
        "build"@ != "publish"@,
        "test"@ != "run"@,
        "test"@ != "publish"@,
        "run"@ != "publish"@,
{
    reveal_strlit("build");
    reveal_strlit("test");
    reveal_strlit("run");
    reveal_strlit("publish");
    assert("build"@[0] == 'b');
    assert("test"@[0] == 't');
    assert("run"@[0] == 'r');
    assert("publish"@[0] == 'p');
}

/// Only tasks that can be inferred, that the setting selects and that no inherited
/// task file defines are inferred: whoever wrote a task keeps it.
pub proof fn law_inference_yields(
    setting: InferTasksSetting,
    reserved_ids: Seq<Seq<char>>,
    project: InferView,
    id: Seq<char>,
)
    requires
        inferred_tasks(setting, reserved_ids, project) is Ok,
        inferred_tasks(setting, reserved_ids, project)->Ok_0.contains_key(id),
    ensures
        crate::config::inferable_tasks().contains(id),
        setting.selects(id),
        !reserved_ids.contains(id),
{
    let all = crate::config::inferable_tasks();
    assert(all[0] == "build"@ && all[1] == "test"@ && all[2] == "run"@ && all[3] == "publish"@);
}

/// With inference switched off no task is inferred.
pub proof fn law_nothing_inferred_when_disabled(
    setting: InferTasksSetting,
    reserved_ids: Seq<Seq<char>>,
    project: InferView,
)
    requires
        forall|task: Seq<char>| !#[trigger] setting.selects(task),
        inferred_tasks(setting, reserved_ids, project) is Ok,
    ensures
        inferred_tasks(setting, reserved_ids, project)->Ok_0 == Map::<
            Seq<char>,
            TaskView,
        >::empty(),
{
    assert(!setting.selects("build"@) && !setting.selects("test"@) && !setting.selects("run"@)
        && !setting.selects("publish"@));
}

/// A project is tested or run, never both, and only what runs is published, for one
/// target framework.
pub proof fn law_tests_are_not_applications(
    setting: InferTasksSetting,
    reserved_ids: Seq<Seq<char>>,
    project: InferView,
)
    requires
        inferred_tasks(setting, reserved_ids, project) is Ok,
    ensures
        ({
            let tasks = inferred_tasks(setting, reserved_ids, project)->Ok_0;
            &&& tasks.contains_key("build"@) <==> is_wanted(setting, reserved_ids, "build"@)
            &&& tasks.contains_key("test"@) ==> project.is_test() && !tasks.contains_key("run"@)
                && !tasks.contains_key("publish"@)
            &&& tasks.contains_key("publish"@) ==> project.is_exe() && project.is_single_tfm()
        }),
{
    lemma_ids_differ();
}

/// A command line ends with the configuration that the evaluation saw, if it saw one.
pub open spec fn is_pinned(command: Seq<Seq<char>>, configuration: Seq<char>) -> bool {
    configuration.len() > 0 ==> command.len() > 2 && command.last() == configuration
        && command[command.len() - 2] == "-c"@
}

/// Every cacheable task runs under the evaluated configuration, without a restore of
/// its own, over the same inputs; what is not `build` needs no `build` task to be
/// there.
pub proof fn law_cacheable_tasks_agree(
    setting: InferTasksSetting,
    reserved_ids: Seq<Seq<char>>,
    project: InferView,
    id: Seq<char>,
)
    requires
        inferred_tasks(setting, reserved_ids, project) is Ok,
        inferred_tasks(setting, reserved_ids, project)->Ok_0.contains_key(id),
        id != "run"@,
    ensures
        ({
            let task = inferred_tasks(setting, reserved_ids, project)->Ok_0[id];
            &&& is_pinned(task.command, project.configuration())
            &&& task.command.contains("--no-restore"@)
            &&& task.inputs == stable_task_inputs(project)
            &&& id != "build"@ ==> target_of("~:build"@) is Some && task.deps == Some(
                seq![TaskDependency::Optional(target_of("~:build"@)->Some_0)],
            )
        }),
{
    lemma_ids_differ();
    let configuration = project.configuration();
    let build = command_line("build"@, project.file, seq!["--no-restore"@, "--no-dependencies"@]);
    let publish = command_line("publish"@, project.file, seq!["--no-build"@, "--no-restore"@]);
    let test = test_command(project);
    let files = optional_file(project.file).len() as int;
    assert(build[2 + files] == "--no-restore"@);
    assert(publish[3 + files] == "--no-restore"@);
    assert(test[test.len() - 1] == "--no-restore"@);
    assert(pinned(build, configuration)[2 + files] == "--no-restore"@);
    assert(pinned(publish, configuration)[3 + files] == "--no-restore"@);
    assert(pinned(test, configuration)[test.len() - 1] == "--no-restore"@);
    let task = inferred_tasks(setting, reserved_ids, project)->Ok_0[id];
    if id == "build"@ {
        assert(task.command == pinned(build, configuration));
    } else if id == "test"@ {
        assert(task.command == pinned(test, configuration));
    } else {
        assert(id == "publish"@);
        assert(task.command == pinned(publish, configuration));
    }
}

/// The inputs of cacheable tasks leave out the directories that a build writes, wherever
/// they can be told: hashes stay stable.
pub proof fn law_inputs_leave_out_build_output(
    project: InferView,
    property: Seq<char>,
    dir: Seq<char>,
)
    requires
        property == "BaseOutputPath"@ || property == "BaseIntermediateOutputPath"@,
        project.output_dir(property) == Some(dir),
    ensures
        stable_input_texts(project)[0] == "**/*"@,
        stable_input_texts(project).contains("!"@ + dir + "/**"@),
{
    let texts = stable_input_texts(project);
    let first = excluded(project.output_dir("BaseOutputPath"@));
    if property == "BaseOutputPath"@ {
        assert(texts[1] == first[0]);
    } else {
        assert(texts[1 + first.len() as int] == excluded(
            project.output_dir("BaseIntermediateOutputPath"@),
        )[0]);
    }
}

/// Where the project file has to be named, every command names it. `test` names it in
/// the way of the runner: through `--project` under Microsoft.Testing.Platform, which
/// rejects a path on its own, and on its own otherwise, where `--project` is rejected.
pub proof fn law_commands_name_the_project_file(
    setting: InferTasksSetting,
    reserved_ids: Seq<Seq<char>>,
    project: InferView,
    id: Seq<char>,
)
    requires
        inferred_tasks(setting, reserved_ids, project) is Ok,
        inferred_tasks(setting, reserved_ids, project)->Ok_0.contains_key(id),
        project.file is Some,
    ensures
        ({
            let command = inferred_tasks(setting, reserved_ids, project)->Ok_0[id].command;
            let file = project.file->Some_0;
            if id == "run"@ || (id == "test"@ && project.uses_test_platform()) {
                command[2] == "--project"@ && command[3] == file
            } else {
                command[2] == file
            }
        }),
{
    lemma_ids_differ();
    let file = project.file->Some_0;
    assert(optional_file(project.file) == seq![file]);
    let task = inferred_tasks(setting, reserved_ids, project)->Ok_0[id];
    let configuration = project.configuration();
    let build = command_line("build"@, project.file, seq!["--no-restore"@, "--no-dependencies"@]);
    let publish = command_line("publish"@, project.file, seq!["--no-build"@, "--no-restore"@]);
    let test = test_command(project);
    assert(build[2] == file && publish[2] == file);
    assert(pinned(build, configuration)[2] == file && pinned(publish, configuration)[2] == file);
    assert(pinned(test, configuration)[2] == test[2] && pinned(test, configuration)[3] == test[3]);
    assert(run_task(project).command[2] == "--project"@ && run_task(project).command[3] == file);
}

/// A task that leaves files behind either declares the evaluated directory as its
/// output or is not cached: the wrong directory is never cached.
pub proof fn law_unknown_outputs_are_not_cached(
    setting: InferTasksSetting,
    reserved_ids: Seq<Seq<char>>,
    project: InferView,
    id: Seq<char>,
    property: Seq<char>,
)
    requires
        inferred_tasks(setting, reserved_ids, project) is Ok,
        inferred_tasks(setting, reserved_ids, project)->Ok_0.contains_key(id),
        (id == "build"@ && property == "BaseOutputPath"@) || (id == "publish"@ && property
            == "PublishDir"@),
    ensures
        ({
            let task = inferred_tasks(setting, reserved_ids, project)->Ok_0[id];
            match project.output_dir(property) {
                Some(dir) => output_of(dir) is Some && task.outputs == Some(
                    seq![output_of(dir)->Some_0],
                ) && task.options is None,
                None => task.outputs is None && task.options == Some(
                    TaskOptions { cache: Some(false), run_in_ci: None },
                ),
            }
        }),
{
    lemma_ids_differ();
}

// ---------------------------------------------------------------------------
// Inherited tasks
// ---------------------------------------------------------------------------

/// A task file that projects inherit from.
#[derive(Debug, PartialEq, Eq)]
pub struct InheritedTaskFile {
    pub path: String,
    /// The toolchains that the file is scoped to, if it is scoped to any.
    pub toolchains: Option<Vec<String>>,
    /// The languages that the file is scoped to, if it is scoped to any.
    pub languages: Option<Vec<String>>,
    /// The ids of the tasks that the file defines.
    pub task_ids: Vec<String>,
}

impl InheritedTaskFile {
    /// The file can apply to .NET projects: it is not scoped to other toolchains or
    /// other languages.
    pub open spec fn can_apply(self) -> bool {
        &&& self.toolchains is Some ==> text::views(self.toolchains->Some_0@).contains("dotnet"@)
        &&& self.languages is Some ==> {
            let languages = text::views(self.languages->Some_0@);
            languages.contains("csharp"@) || languages.contains("fsharp"@) || languages.contains(
                "vb"@,
            )
        }
    }

    /// Whether the file can apply to .NET projects.
    pub fn applies(&self) -> (r: bool)
        ensures
            r == self.can_apply(),
    {
        let in_toolchain = match &self.toolchains {
            Some(toolchains) => text::list_contains(toolchains, "dotnet"),
            None => true,
        };
        let in_language = match &self.languages {
            Some(languages) => text::list_contains(languages, "csharp") || text::list_contains(
                languages,
                "fsharp",
            ) || text::list_contains(languages, "vb"),
            None => true,
        };
        in_toolchain && in_language
    }
}

/// The tasks with those of one file more.
pub open spec fn with_tasks_of(
    reserved: Map<Seq<char>, Seq<char>>,
    ids: Seq<Seq<char>>,
    path: Seq<char>,
) -> Map<Seq<char>, Seq<char>> {
    Map::new(
        |id: Seq<char>| reserved.contains_key(id) || ids.contains(id),
        |id: Seq<char>|
            if ids.contains(id) {
                path
            } else {
                reserved[id]
            },
    )
}

/// The ids of the tasks that the files define for .NET projects, each with the last
/// file that defines it.
pub open spec fn reserved_tasks(files: Seq<InheritedTaskFile>) -> Map<Seq<char>, Seq<char>>
    decreases files.len(),
{
    if files.len() == 0 {
        Map::empty()
    } else if files.last().can_apply() {
        with_tasks_of(
            reserved_tasks(files.drop_last()),
            text::views(files.last().task_ids@),
            files.last().path@,
        )
    } else {
        reserved_tasks(files.drop_last())
    }
}

/// Adds the tasks of one file.
fn reserve(reserved: &mut StrMap<String>, file: &InheritedTaskFile)
    ensures
        final(reserved)@ == with_tasks_of(
            old(reserved)@,
            text::views(file.task_ids@),
            file.path@,
        ),
{
    let ghost start = reserved@;
    let ghost ids = text::views(file.task_ids@);
    assert(ids.take(0) =~= Seq::empty());
    assert(reserved@ =~= with_tasks_of(start, ids.take(0), file.path@));
    for i in 0..file.task_ids.len()
        invariant
            ids == text::views(file.task_ids@),
            reserved@ == with_tasks_of(start, ids.take(i as int), file.path@),
    {
        let id = file.task_ids[i].as_str();
        assert(ids[i as int] == id@);
        reserved.insert(text::owned(id), file.path.clone());
        proof {
            assert forall|k: Seq<char>| #[trigger] ids.take(i + 1).contains(k) <==> (ids.take(
                i as int,
            ).contains(k) || k == id@) by {
                text::lemma_take_contains(ids, i as int, k);
            }
        }
        assert(reserved@ =~= with_tasks_of(start, ids.take(i + 1), file.path@));
    }
    assert(ids.take(ids.len() as int) =~= ids);
}

/// The ids of the tasks that inherited task files define for .NET projects, each with
/// the file.
pub fn reserved_task_ids(files: &[InheritedTaskFile]) -> (r: StrMap<String>)
    ensures
        r@ == reserved_tasks(files@),
{
    let mut r: StrMap<String> = StrMap::new();
    assert(files@.take(0) =~= Seq::empty());
    for i in 0..files.len()
        invariant
            r@ == reserved_tasks(files@.take(i as int)),
    {
        assert(files@.take(i + 1).drop_last() =~= files@.take(i as int));
        if files[i].applies() {
            reserve(&mut r, &files[i]);
        }
    }
    assert(files@.take(files@.len() as int) =~= files@);
    r
}

/// A task is reserved exactly where a file that can apply defines it: files that are
/// scoped to other toolchains or languages suppress nothing.
pub proof fn law_files_scoped_elsewhere_suppress_nothing(
    files: Seq<InheritedTaskFile>,
    id: Seq<char>,
)
    ensures
        reserved_tasks(files).contains_key(id) <==> exists|i: int|
            0 <= i < files.len() && (#[trigger] files[i]).can_apply() && text::views(
                files[i].task_ids@,
            ).contains(id),
    decreases files.len(),
{
    if files.len() > 0 {
        let fewer = files.drop_last();
        law_files_scoped_elsewhere_suppress_nothing(fewer, id);
        assert(files[files.len() - 1] == files.last());
        assert(forall|i: int| 0 <= i < fewer.len() ==> #[trigger] fewer[i] == files[i]);
        if exists|i: int|
            0 <= i < files.len() && (#[trigger] files[i]).can_apply() && text::views(
                files[i].task_ids@,
            ).contains(id) {
            let i = choose|i: int|
                0 <= i < files.len() && (#[trigger] files[i]).can_apply() && text::views(
                    files[i].task_ids@,
                ).contains(id);
            if i < fewer.len() {
                assert(fewer[i] == files[i]);
            }
        }
        if exists|i: int|
            0 <= i < fewer.len() && (#[trigger] fewer[i]).can_apply() && text::views(
                fewer[i].task_ids@,
            ).contains(id) {
            let i = choose|i: int|
                0 <= i < fewer.len() && (#[trigger] fewer[i]).can_apply() && text::views(
                    fewer[i].task_ids@,
                ).contains(id);
            assert(files[i] == fewer[i]);
        }
    }
}

// ---------------------------------------------------------------------------
// Conflicts
// ---------------------------------------------------------------------------

/// The selected tasks that an inherited task file defines, each with that file, in
/// the order in which tasks are listed.
pub open spec fn conflicts(
    reserved: Map<Seq<char>, Seq<char>>,
    setting: InferTasksSetting,
) -> Seq<(Seq<char>, Seq<char>)> {
    crate::config::inferable_tasks().filter(
        |task: Seq<char>| setting.selects(task) && reserved.contains_key(task),
    ).map_values(|task: Seq<char>| (task, reserved[task]))
}

/// Task ids that inference would have contributed but had to yield to an
/// inherited task file, paired with the file that claimed each one.
///
/// Yielding is silent otherwise, which turns "why does no project have a
/// build task?" into a dead end, worth one report per workspace.
pub fn reportable_conflicts<'a>(
    reserved: &'a StrMap<String>,
    setting: &InferTasksSetting,
) -> (r: Vec<(&'a str, &'a str)>)
    ensures
        r@.map_values(|entry: (&str, &str)| (entry.0@, entry.1@)) == conflicts(reserved@, *setting),
{
    let ghost all = crate::config::inferable_tasks();
    let ghost chosen = |task: Seq<char>| setting.selects(task) && reserved@.contains_key(task);
    let ghost shown = |task: Seq<char>| (task, reserved@[task]);
    let ghost view = |entry: (&str, &str)| (entry.0@, entry.1@);
    let mut r: Vec<(&'a str, &'a str)> = Vec::new();
    proof {
        reveal(Seq::filter);
        assert(r@.map_values(view) =~= all.take(0).filter(chosen).map_values(shown));
    }
    for i in 0..4usize
        invariant
            all == crate::config::inferable_tasks(),
            chosen == (|task: Seq<char>| setting.selects(task) && reserved@.contains_key(task)),
            shown == (|task: Seq<char>| (task, reserved@[task])),
            view == (|entry: (&str, &str)| (entry.0@, entry.1@)),
            r@.map_values(view) == all.take(i as int).filter(chosen).map_values(shown),
    {
        let task = crate::config::INFERABLE_TASKS[i];
        assert(task@ == all[i as int]);
        let ghost was = r@.map_values(view);
        proof {
            reveal(Seq::filter);
            assert(all.take(i + 1).drop_last() =~= all.take(i as int));
        }
        if setting.includes(task) {
            if let Some((id, file)) = reserved.get_key_value(task) {
                r.push((id, file.as_str()));
                assert(r@.map_values(view) =~= was.push((id@, file@)));
                assert(r@.map_values(view) =~= all.take(i + 1).filter(chosen).map_values(shown));
            }
        }
    }
    assert(all.take(4) =~= all);
    r
}

// ---------------------------------------------------------------------------
// What inference is for
// ---------------------------------------------------------------------------

/// The setting asks for the task, and nobody has written it.
pub open spec fn is_asked_for(
    setting: InferTasksSetting,
    reserved_ids: Seq<Seq<char>>,
    id: Seq<char>,
) -> bool {
    &&& !reserved_ids.contains(id)
    &&& match setting {
        InferTasksSetting::Enabled(enabled) => enabled,
        InferTasksSetting::Only(list) => exists|i: int|
            0 <= i < list@.len() && text::same_ignoring_ascii_case((#[trigger] list@[i])@, id),
    }
}

/// The evaluation says that this is a test project, or references the test SDK.
pub open spec fn is_evaluated_as_test(evaluation: EvalView) -> bool {
    ||| text::same_ignoring_ascii_case(evaluation.property("IsTestProject"@), "true"@)
    ||| evaluation.items.contains_key("PackageReference"@) && exists|i: int|
        0 <= i < evaluation.items["PackageReference"@].len() && (
        #[trigger] evaluation.items["PackageReference"@][i]).contains_key("Identity"@)
            && text::same_ignoring_ascii_case(
            evaluation.items["PackageReference"@][i]["Identity"@],
            "Microsoft.NET.Test.Sdk"@,
        )
}

/// The evaluation says that this is an application.
pub open spec fn is_evaluated_as_application(evaluation: EvalView) -> bool {
    ||| text::same_ignoring_ascii_case(evaluation.property("OutputType"@), "Exe"@)
    ||| text::same_ignoring_ascii_case(evaluation.property("OutputType"@), "WinExe"@)
}

proof fn lemma_test_project(project: InferView)
    ensures
        project.is_test() <==> is_evaluated_as_test(project.evaluation),
{
    let evaluation = project.evaluation;
    let packages = evaluation.package_references();
    if references_test_sdk(packages) {
        let name = choose|name: Seq<char>| #[trigger]
            packages.contains_key(name) && text::same_ignoring_ascii_case(
                name,
                "Microsoft.NET.Test.Sdk"@,
            );
        crate::msbuild::law_packages_have_the_last_version(evaluation, name);
        let items = evaluation.items["PackageReference"@];
        let i = choose|i: int| #[trigger] crate::msbuild::is_last_of(items, i, name);
        assert(items[i].contains_key("Identity"@));
    }
    if evaluation.items.contains_key("PackageReference"@) && exists|i: int|
        0 <= i < evaluation.items["PackageReference"@].len() && (
        #[trigger] evaluation.items["PackageReference"@][i]).contains_key("Identity"@)
            && text::same_ignoring_ascii_case(
            evaluation.items["PackageReference"@][i]["Identity"@],
            "Microsoft.NET.Test.Sdk"@,
        ) {
        let items = evaluation.items["PackageReference"@];
        let i = choose|i: int|
            0 <= i < items.len() && (#[trigger] items[i]).contains_key("Identity"@)
                && text::same_ignoring_ascii_case(
                items[i]["Identity"@],
                "Microsoft.NET.Test.Sdk"@,
            );
        let name = items[i]["Identity"@];
        let last = crate::msbuild::lemma_last_of(items, i, name);
        crate::msbuild::law_packages_have_the_last_version(evaluation, name);
        assert(packages.contains_key(name));
    }
}

/// Which tasks a project gets: `build` every one, `test` the test projects, `run` the
/// applications that are no test projects, and `publish` those of them that target one
/// framework, each where it is asked for. There are no others.
pub proof fn law_tasks_follow_from_the_evaluation(
    setting: InferTasksSetting,
    reserved_ids: Seq<Seq<char>>,
    project: InferView,
    id: Seq<char>,
)
    requires
        inferred_tasks(setting, reserved_ids, project) is Ok,
    ensures
        inferred_tasks(setting, reserved_ids, project)->Ok_0.contains_key(id) <==> is_asked_for(
            setting,
            reserved_ids,
            id,
        ) && ({
            let evaluation = project.evaluation;
            let test = is_evaluated_as_test(evaluation);
            let application = !test && is_evaluated_as_application(evaluation);
            ||| id == "build"@
            ||| id == "test"@ && test
            ||| id == "run"@ && application
            ||| id == "publish"@ && application && evaluation.property("TargetFrameworks"@).len()
                == 0
        }),
{
    lemma_ids_differ();
    lemma_test_project(project);
    crate::config::law_settings_select_what_they_name(setting, id);
    crate::config::law_settings_select_what_they_name(setting, "build"@);
    crate::config::law_settings_select_what_they_name(setting, "test"@);
    crate::config::law_settings_select_what_they_name(setting, "run"@);
    crate::config::law_settings_select_what_they_name(setting, "publish"@);
    assert(setting.selects(id) && !reserved_ids.contains(id) <==> is_asked_for(
        setting,
        reserved_ids,
        id,
    ));
}

/// The words that pin the configuration, if there is one.
pub open spec fn pin(configuration: Seq<char>) -> Seq<Seq<char>> {
    if configuration.len() == 0 {
        Seq::empty()
    } else {
        seq!["-c"@, configuration]
    }
}

/// What `build` runs, after which tasks, and what it leaves behind.
pub proof fn law_build_builds_this_project_alone(
    setting: InferTasksSetting,
    reserved_ids: Seq<Seq<char>>,
    project: InferView,
)
    requires
        inferred_tasks(setting, reserved_ids, project) is Ok,
        inferred_tasks(setting, reserved_ids, project)->Ok_0.contains_key("build"@),
    ensures
        ({
            let task = inferred_tasks(setting, reserved_ids, project)->Ok_0["build"@];
            &&& task.command == (match project.file {
                Some(file) => seq![
                    "dotnet"@,
                    "build"@,
                    file,
                    "--no-restore"@,
                    "--no-dependencies"@,
                ],
                None => seq!["dotnet"@, "build"@, "--no-restore"@, "--no-dependencies"@],
            }) + pin(project.evaluation.property("Configuration"@))
            &&& target_of("^:build"@) is Some
            &&& task.deps == Some(
                seq![TaskDependency::Target(target_of("^:build"@)->Some_0)],
            )
            &&& has_outputs(task, project, "BaseOutputPath"@)
            &&& has_stable_inputs(task, project)
        }),
{
    lemma_ids_differ();
    let task = inferred_tasks(setting, reserved_ids, project)->Ok_0["build"@];
    let inputs = stable_task_inputs(project)->Some_0;
    assert(build_task(project, inputs) == Ok::<TaskView, TaskFault>(task));
    assert(task.command =~= (match project.file {
        Some(file) => seq!["dotnet"@, "build"@, file, "--no-restore"@, "--no-dependencies"@],
        None => seq!["dotnet"@, "build"@, "--no-restore"@, "--no-dependencies"@],
    }) + pin(project.evaluation.property("Configuration"@)));
    lemma_stable_inputs(task, project);
}

/// What a task leaves behind: the directory that a property holds, or, where that cannot be
/// told, something that is not cached.
pub open spec fn has_outputs(task: TaskView, project: InferView, property: Seq<char>) -> bool {
    match resolved_output(
        project.evaluation.property(property),
        project.project_dir,
        project.workspace_dir,
    ) {
        Some(dir) => output_of(dir) is Some && task.outputs == Some(
            seq![output_of(dir)->Some_0],
        ) && task.options is None,
        None => task.outputs is None && task.options == Some(
            TaskOptions { cache: Some(false), run_in_ci: None },
        ),
    }
}

/// A task is hashed over everything in the project but its build output.
pub open spec fn has_stable_inputs(task: TaskView, project: InferView) -> bool {
    let bin = resolved_output(
        project.evaluation.property("BaseOutputPath"@),
        project.project_dir,
        project.workspace_dir,
    );
    let obj = resolved_output(
        project.evaluation.property("BaseIntermediateOutputPath"@),
        project.project_dir,
        project.workspace_dir,
    );
    let texts = seq!["**/*"@] + (match bin {
        Some(dir) => seq!["!"@ + dir + "/**"@],
        None => Seq::empty(),
    }) + (match obj {
        Some(dir) => seq!["!"@ + dir + "/**"@],
        None => Seq::empty(),
    });
    &&& task.inputs is Some
    &&& task.inputs->Some_0.len() == texts.len()
    &&& forall|i: int|
        0 <= i < texts.len() ==> input_of(#[trigger] texts[i]) == Some(task.inputs->Some_0[i])
}

proof fn lemma_stable_inputs(task: TaskView, project: InferView)
    requires
        stable_task_inputs(project) is Some,
        task.inputs == stable_task_inputs(project),
    ensures
        has_stable_inputs(task, project),
{
    let bin = resolved_output(
        project.evaluation.property("BaseOutputPath"@),
        project.project_dir,
        project.workspace_dir,
    );
    let obj = resolved_output(
        project.evaluation.property("BaseIntermediateOutputPath"@),
        project.project_dir,
        project.workspace_dir,
    );
    let texts = seq!["**/*"@] + (match bin {
        Some(dir) => seq!["!"@ + dir + "/**"@],
        None => Seq::empty(),
    }) + (match obj {
        Some(dir) => seq!["!"@ + dir + "/**"@],
        None => Seq::empty(),
    });
    assert(stable_input_texts(project) =~= texts);
    assert forall|i: int| 0 <= i < texts.len() implies input_of(#[trigger] texts[i]) == Some(
        task.inputs->Some_0[i],
    ) by {
        assert(input_of(stable_input_texts(project)[i]) is Some);
    }
}

/// What `test` runs, after which tasks, and that it leaves nothing behind.
pub proof fn law_test_runs_what_was_built(
    setting: InferTasksSetting,
    reserved_ids: Seq<Seq<char>>,
    project: InferView,
)
    requires
        inferred_tasks(setting, reserved_ids, project) is Ok,
        inferred_tasks(setting, reserved_ids, project)->Ok_0.contains_key("test"@),
    ensures
        ({
            let task = inferred_tasks(setting, reserved_ids, project)->Ok_0["test"@];
            let platform = project.test_platform_runner || text::same_ignoring_ascii_case(
                project.evaluation.property("TestingPlatformDotnetTestSupport"@),
                "true"@,
            );
            &&& task.command == (match project.file {
                Some(file) => if platform {
                    seq!["dotnet"@, "test"@, "--project"@, file, "--no-build"@, "--no-restore"@]
                } else {
                    seq!["dotnet"@, "test"@, file, "--no-build"@, "--no-restore"@]
                },
                None => seq!["dotnet"@, "test"@, "--no-build"@, "--no-restore"@],
            }) + pin(project.evaluation.property("Configuration"@))
            &&& target_of("~:build"@) is Some
            &&& task.deps == Some(
                seq![TaskDependency::Optional(target_of("~:build"@)->Some_0)],
            )
            &&& task.outputs is None
            &&& task.options is None
            &&& has_stable_inputs(task, project)
        }),
{
    lemma_ids_differ();
    let task = inferred_tasks(setting, reserved_ids, project)->Ok_0["test"@];
    let inputs = stable_task_inputs(project)->Some_0;
    assert(test_task(project, inputs) == Ok::<TaskView, TaskFault>(task));
    let platform = project.test_platform_runner || text::same_ignoring_ascii_case(
        project.evaluation.property("TestingPlatformDotnetTestSupport"@),
        "true"@,
    );
    assert(task.command =~= (match project.file {
        Some(file) => if platform {
            seq!["dotnet"@, "test"@, "--project"@, file, "--no-build"@, "--no-restore"@]
        } else {
            seq!["dotnet"@, "test"@, file, "--no-build"@, "--no-restore"@]
        },
        None => seq!["dotnet"@, "test"@, "--no-build"@, "--no-restore"@],
    }) + pin(project.evaluation.property("Configuration"@)));
    lemma_stable_inputs(task, project);
}

/// What `run` runs: nothing that is cached, and nothing for continuous integration.
pub proof fn law_run_is_for_the_developer(
    setting: InferTasksSetting,
    reserved_ids: Seq<Seq<char>>,
    project: InferView,
)
    requires
        inferred_tasks(setting, reserved_ids, project) is Ok,
        inferred_tasks(setting, reserved_ids, project)->Ok_0.contains_key("run"@),
    ensures
        ({
            let task = inferred_tasks(setting, reserved_ids, project)->Ok_0["run"@];
            &&& task.command == (match project.file {
                Some(file) => seq!["dotnet"@, "run"@, "--project"@, file],
                None => seq!["dotnet"@, "run"@],
            })
            &&& task.deps is None
            &&& task.inputs is None
            &&& task.outputs is None
            &&& task.options == Some(
                TaskOptions { cache: Some(false), run_in_ci: Some(false) },
            )
        }),
{
    lemma_ids_differ();
    let task = inferred_tasks(setting, reserved_ids, project)->Ok_0["run"@];
    assert(task == run_task(project));
    assert(task.command =~= (match project.file {
        Some(file) => seq!["dotnet"@, "run"@, "--project"@, file],
        None => seq!["dotnet"@, "run"@],
    }));
}

/// What `publish` runs, after which tasks, and what it leaves behind.
pub proof fn law_publish_publishes_what_was_built(
    setting: InferTasksSetting,
    reserved_ids: Seq<Seq<char>>,
    project: InferView,
)
    requires
        inferred_tasks(setting, reserved_ids, project) is Ok,
        inferred_tasks(setting, reserved_ids, project)->Ok_0.contains_key("publish"@),
    ensures
        ({
            let task = inferred_tasks(setting, reserved_ids, project)->Ok_0["publish"@];
            &&& task.command == (match project.file {
                Some(file) => seq!["dotnet"@, "publish"@, file, "--no-build"@, "--no-restore"@],
                None => seq!["dotnet"@, "publish"@, "--no-build"@, "--no-restore"@],
            }) + pin(project.evaluation.property("Configuration"@))
            &&& target_of("~:build"@) is Some
            &&& task.deps == Some(
                seq![TaskDependency::Optional(target_of("~:build"@)->Some_0)],
            )
            &&& has_outputs(task, project, "PublishDir"@)
            &&& has_stable_inputs(task, project)
        }),
{
    lemma_ids_differ();
    let task = inferred_tasks(setting, reserved_ids, project)->Ok_0["publish"@];
    let inputs = stable_task_inputs(project)->Some_0;
    assert(publish_task(project, inputs) == Ok::<TaskView, TaskFault>(task));
    assert(task.command =~= (match project.file {
        Some(file) => seq!["dotnet"@, "publish"@, file, "--no-build"@, "--no-restore"@],
        None => seq!["dotnet"@, "publish"@, "--no-build"@, "--no-restore"@],
    }) + pin(project.evaluation.property("Configuration"@)));
    lemma_stable_inputs(task, project);
}

/// The moon task output for the directory that a property holds.
pub open spec fn evaluated_dir(project: InferView, property: Seq<char>) -> Option<Seq<char>> {
    resolved_output(
        project.evaluation.property(property),
        project.project_dir,
        project.workspace_dir,
    )
}

/// The pattern that leaves out a directory, if there is one, can be read.
pub open spec fn can_leave_out(dir: Option<Seq<char>>) -> bool {
    dir is Some ==> input_of("!"@ + dir->Some_0 + "/**"@) is Some
}

/// A directory, if there is one, can be declared as an output.
pub open spec fn can_declare(dir: Option<Seq<char>>) -> bool {
    dir is Some ==> output_of(dir->Some_0) is Some
}

/// Inference succeeds exactly where all that the wanted tasks need can be read: their
/// inputs, their targets and their outputs. Inputs are read first, whatever is wanted.
pub proof fn law_inference_succeeds_where_all_is_read(
    setting: InferTasksSetting,
    reserved_ids: Seq<Seq<char>>,
    project: InferView,
)
    ensures
        ({
            let r = inferred_tasks(setting, reserved_ids, project);
            let bin = evaluated_dir(project, "BaseOutputPath"@);
            let inputs = input_of("**/*"@) is Some && can_leave_out(bin) && can_leave_out(
                evaluated_dir(project, "BaseIntermediateOutputPath"@),
            );
            let test = is_evaluated_as_test(project.evaluation);
            let application = !test && is_evaluated_as_application(project.evaluation);
            let single = project.evaluation.property("TargetFrameworks"@).len() == 0;
            let build_fits = target_of("^:build"@) is Some && can_declare(bin);
            let test_fits = target_of("~:build"@) is Some;
            let publish_fits = test_fits && can_declare(evaluated_dir(project, "PublishDir"@));
            &&& r is Ok <==> {
                &&& inputs
                &&& is_asked_for(setting, reserved_ids, "build"@) ==> build_fits
                &&& test && is_asked_for(setting, reserved_ids, "test"@) ==> test_fits
                &&& application && single && is_asked_for(setting, reserved_ids, "publish"@)
                    ==> publish_fits
            }
            &&& r is Err && !inputs <==> r is Err && r->Err_0 is Input
        }),
{
    lemma_ids_differ();
    lemma_test_project(project);
    crate::config::law_settings_select_what_they_name(setting, "build"@);
    crate::config::law_settings_select_what_they_name(setting, "test"@);
    crate::config::law_settings_select_what_they_name(setting, "run"@);
    crate::config::law_settings_select_what_they_name(setting, "publish"@);
    let texts = stable_input_texts(project);
    let bin = evaluated_dir(project, "BaseOutputPath"@);
    let obj = evaluated_dir(project, "BaseIntermediateOutputPath"@);
    assert(texts[0] == "**/*"@);
    if bin is Some {
        assert(texts[1] == "!"@ + bin->Some_0 + "/**"@);
    }
    if obj is Some {
        assert(texts[1 + excluded(bin).len() as int] == "!"@ + obj->Some_0 + "/**"@);
    }
    let inputs = input_of("**/*"@) is Some && can_leave_out(bin) && can_leave_out(obj);
    assert(inputs <==> stable_task_inputs(project) is Some) by {
        if inputs {
            assert forall|i: int| 0 <= i < texts.len() implies input_of(
                #[trigger] texts[i],
            ) is Some by {
                if i >= 1 + excluded(bin).len() {
                    assert(texts[i] == "!"@ + obj->Some_0 + "/**"@);
                } else if i >= 1 {
                    assert(texts[i] == "!"@ + bin->Some_0 + "/**"@);
                }
            }
        }
    }
    assert(is_wanted(setting, reserved_ids, "build"@) <==> is_asked_for(
        setting,
        reserved_ids,
        "build"@,
    ));
    assert(is_wanted(setting, reserved_ids, "test"@) <==> is_asked_for(
        setting,
        reserved_ids,
        "test"@,
    ));
    assert(is_wanted(setting, reserved_ids, "publish"@) <==> is_asked_for(
        setting,
        reserved_ids,
        "publish"@,
    ));
}

// ---------------------------------------------------------------------------
// What paths stand for
// ---------------------------------------------------------------------------

/// What stands below a directory is told from it, in whatever ASCII case either is
/// written; what merely begins alike is not below it.
pub proof fn law_below_is_told_in_any_case(
    dir: Seq<char>,
    written: Seq<char>,
    rest: Seq<char>,
)
    requires
        dir.len() > 0,
        text::same_ignoring_ascii_case(written, dir),
    ensures
        stripped_ci(written.push('/') + rest, dir) == Some(rest),
        stripped_ci(written, dir) is None,
        rest.len() > 0 && rest[0] != '/' ==> stripped_ci(written + rest, dir) is None,
{
    let value = written.push('/') + rest;
    assert(written.len() == text::ascii_lower(written).len() == text::ascii_lower(dir).len()
        == dir.len());
    assert forall|i: int| 0 <= i < dir.len() implies same_char_ignoring_case(value[i], dir[i]) by {
        assert(text::ascii_lower(written)[i] == text::ascii_lower(dir)[i]);
        assert(text::ascii_lower_char(written[i]) == text::ascii_lower_char(dir[i]));
        assert(value[i] == written[i]);
    }
    assert(value.skip(dir.len() as int + 1) =~= rest);
    if rest.len() > 0 {
        assert((written + rest)[dir.len() as int] == rest[0]);
    }
}

/// What does not begin like a directory, in any ASCII case, is not below it.
pub proof fn law_elsewhere_is_not_below(value: Seq<char>, dir: Seq<char>, i: int)
    requires
        0 <= i < dir.len(),
        i < value.len(),
        (value[i] as u32) < 128,
        (dir[i] as u32) < 128,
        text::ascii_lower_char(value[i]) != text::ascii_lower_char(dir[i]),
    ensures
        stripped_ci(value, dir) is None,
{
    assert(text::lowered_char(value[i])[0] != text::lowered_char(dir[i])[0]);
    assert(!same_char_ignoring_case(value[i], dir[i]));
}

/// It does not matter with which slashes a path is written, nor whether slashes stand at
/// its end.
pub proof fn law_slashes_do_not_matter(
    raw: Seq<char>,
    project_dir: Seq<char>,
    workspace_dir: Seq<char>,
)
    ensures
        ({
            let r = resolved_output(raw, project_dir, workspace_dir);
            &&& resolved_output(
                text::replaced(raw, '\\', '/'),
                text::replaced(project_dir, '\\', '/'),
                text::replaced(workspace_dir, '\\', '/'),
            ) == r
            &&& resolved_output(raw.push('/'), project_dir, workspace_dir) == r
            &&& resolved_output(raw.push('\\'), project_dir, workspace_dir) == r
            &&& resolved_output(raw, project_dir.push('/'), workspace_dir.push('/')) == r
        }),
{
    lemma_forward_path(raw);
    lemma_forward_path(project_dir);
    lemma_forward_path(workspace_dir);
}

proof fn lemma_forward_path(path: Seq<char>)
    ensures
        forward_path(text::replaced(path, '\\', '/')) == forward_path(path),
        forward_path(path.push('/')) == forward_path(path),
        forward_path(path.push('\\')) == forward_path(path),
{
    let forward = text::replaced(path, '\\', '/');
    assert(text::replaced(forward, '\\', '/') =~= forward);
    assert(text::replaced(path.push('/'), '\\', '/') =~= forward.push('/'));
    assert(text::replaced(path.push('\\'), '\\', '/') =~= forward.push('/'));
    assert(forward.push('/').drop_last() =~= forward);
}

/// A path that leads up nowhere and hangs from the root or a drive stands for what it names
/// below the project or the workspace, and for nothing where it is below neither; any
/// other that leads up nowhere stands for itself.
pub proof fn law_paths_stand_for_what_they_name(
    value: Seq<char>,
    project: Seq<char>,
    workspace: Seq<char>,
)
    requires
        value.len() > 0,
        value.last() != '/',
        text::is_free_of(value, '\\'),
        !climbs(value),
    ensures
        ({
            let r = resolved_output(value, project, workspace);
            let near = stripped_ci(value, forward_path(project));
            let far = stripped_ci(value, forward_path(workspace));
            if value[0] == '/' || (value.len() > 1 && value[1] == ':' && (value[0] as u32) < 128) {
                &&& near is Some ==> r == near
                &&& near is None && far is Some ==> r == Some(seq!['/'] + far->Some_0)
                &&& near is None && far is None ==> r is None
            } else {
                r == Some(value)
            }
        }),
{
    assert(text::replaced(value, '\\', '/') =~= value);
    assert(forward_path(value) == value);
}

/// A path leads up exactly where two dots stand alone between slashes or ends of it.
pub proof fn law_two_dots_lead_up(a: Seq<char>, b: Seq<char>)
    ensures
        climbs(".."@),
        climbs(a.push('/') + ".."@),
        climbs(".."@.push('/') + b),
        climbs((a.push('/') + ".."@).push('/') + b),
        climbs(a.push('/') + b) <==> climbs(a) || climbs(b),
        text::is_free_of(a, '/') ==> (climbs(a) <==> a == ".."@),
{
    let dots = ".."@;
    reveal_strlit("..");
    assert(text::is_free_of(dots, '/'));
    lemma_climbs_between(a, b);
    lemma_climbs_between(a, dots);
    lemma_climbs_between(dots, b);
    lemma_climbs_between(a.push('/') + dots, b);
    text::lemma_split_whole(dots, '/');
    assert(seq![dots][0] == dots);
    assert(seq![dots].contains(dots));
    if text::is_free_of(a, '/') {
        text::lemma_split_whole(a, '/');
        assert(seq![a][0] == a);
        assert(seq![a].contains(dots) <==> a == dots);
    }
}

proof fn lemma_climbs_between(a: Seq<char>, b: Seq<char>)
    ensures
        climbs(a.push('/') + b) <==> climbs(a) || climbs(b),
{
    let dots = ".."@;
    let x = text::split(a, '/');
    let y = text::split(b, '/');
    text::lemma_split_between(a, b, '/');
    if x.contains(dots) {
        let i = choose|i: int| 0 <= i < x.len() && x[i] == dots;
        assert((x + y)[i] == dots);
    }
    if y.contains(dots) {
        let i = choose|i: int| 0 <= i < y.len() && y[i] == dots;
        assert((x + y)[x.len() + i] == dots);
    }
    if (x + y).contains(dots) {
        let i = choose|i: int| 0 <= i < (x + y).len() && (x + y)[i] == dots;
        if i < x.len() {
            assert(x[i] == dots);
        } else {
            assert(y[i - x.len()] == dots);
        }
    }
}

/// How a path folds: a name goes one down, two dots undo that, and a dot or nothing stays.
/// From where it begins, two dots lead nowhere.
pub proof fn law_folding_undoes_steps(path: Seq<char>, name: Seq<char>)
    requires
        text::is_free_of(name, '/'),
    ensures
        folded(path.push('/')) == folded(path),
        folded(path.push('/') + "."@) == folded(path),
        name.len() > 0 && name != "."@ && name != ".."@ ==> {
            &&& folded(path.push('/') + name) == folded(path).push('/') + name
            &&& folded((path.push('/') + name).push('/') + ".."@) == folded(path)
        },
        text::is_free_of(path, '/') ==> folded(path) == path && folded(path.push('/') + ".."@)
            == path,
{
    reveal(folded);
    reveal_strlit(".");
    reveal_strlit("..");
    let none = Seq::<char>::empty();
    let dots = ".."@;
    let pieces = text::split(path, '/');
    text::lemma_split_pieces(path, '/');
    text::lemma_split_after(path, none, '/');
    text::lemma_split_after(path, "."@, '/');
    text::lemma_split_after(path, name, '/');
    text::lemma_split_after(path.push('/') + name, dots, '/');
    text::lemma_split_after(path, dots, '/');
    assert(path.push('/') + none =~= path.push('/'));
    assert(pieces.push(none).skip(1) =~= pieces.skip(1).push(none));
    assert(pieces.push("."@).skip(1) =~= pieces.skip(1).push("."@));
    assert(pieces.push(name).skip(1) =~= pieces.skip(1).push(name));
    assert(pieces.push(dots).skip(1) =~= pieces.skip(1).push(dots));
    assert(pieces.push(name).push(dots).skip(1) =~= pieces.skip(1).push(name).push(dots));
    assert(pieces.skip(1).push(none).drop_last() =~= pieces.skip(1));
    assert(pieces.skip(1).push("."@).drop_last() =~= pieces.skip(1));
    assert(pieces.skip(1).push(name).drop_last() =~= pieces.skip(1));
    assert(pieces.skip(1).push(dots).drop_last() =~= pieces.skip(1));
    assert(pieces.skip(1).push(name).push(dots).drop_last() =~= pieces.skip(1).push(name));
    let kept = walked(pieces.skip(1));
    let parts = seq![pieces[0]] + kept;
    assert(walked(pieces.skip(1).push(none)) == kept);
    assert(walked(pieces.skip(1).push("."@)) == kept);
    if name.len() > 0 && name != "."@ && name != dots {
        assert(walked(pieces.skip(1).push(name)) == kept.push(name));
        assert(walked(pieces.skip(1).push(name).push(dots)) =~= kept);
        let more = seq![pieces[0]] + kept.push(name);
        assert(more.drop_last() =~= parts);
        assert(more.last() == name);
        assert(folded(path.push('/') + name) == text::joined(more, '/'));
    }
    if text::is_free_of(path, '/') {
        text::lemma_split_whole(path, '/');
        assert(pieces.skip(1) =~= Seq::empty());
        assert(kept =~= Seq::empty());
        assert(parts =~= seq![path]);
        assert(walked(pieces.skip(1).push(dots)) =~= Seq::empty());
        assert(seq![pieces[0]] + walked(pieces.skip(1).push(dots)) =~= seq![path]);
    }
}

/// A path that leads up stands for the place that it folds to, from the project where it
/// hangs from nothing else.
pub proof fn law_paths_that_lead_up_stand_for_their_place(
    value: Seq<char>,
    project: Seq<char>,
    workspace: Seq<char>,
)
    requires
        value.len() > 0,
        value.last() != '/',
        text::is_free_of(value, '\\'),
        climbs(value),
    ensures
        ({
            let r = resolved_output(value, project, workspace);
            let absolute = value[0] == '/' || (value.len() > 1 && value[1] == ':' && (
            value[0] as u32) < 128);
            let place = if absolute {
                folded(value)
            } else {
                folded(forward_path(project).push('/') + value)
            };
            let near = stripped_ci(place, folded(forward_path(project)));
            let far = stripped_ci(place, folded(forward_path(workspace)));
            &&& near is Some ==> r == near
            &&& near is None && far is Some ==> r == Some(seq!['/'] + far->Some_0)
            &&& near is None && far is None ==> r is None
        }),
{
    assert(text::replaced(value, '\\', '/') =~= value);
    assert(forward_path(value) == value);
}

// ---------------------------------------------------------------------------
// What is inherited
// ---------------------------------------------------------------------------

/// A task file that says nothing of toolchains, or names `dotnet`, and that says nothing
/// of languages, or names one of .NET's.
pub open spec fn is_for_dotnet(file: InheritedTaskFile) -> bool {
    &&& file.toolchains is None || exists|i: int|
        0 <= i < file.toolchains->Some_0@.len() && (#[trigger] file.toolchains->Some_0@[i])@
            == "dotnet"@
    &&& file.languages is None || exists|i: int|
        0 <= i < file.languages->Some_0@.len() && ((#[trigger] file.languages->Some_0@[i])@
            == "csharp"@ || file.languages->Some_0@[i]@ == "fsharp"@
            || file.languages->Some_0@[i]@ == "vb"@)
}

/// The file defines the task.
pub open spec fn defines(file: InheritedTaskFile, id: Seq<char>) -> bool {
    exists|i: int| 0 <= i < file.task_ids@.len() && (#[trigger] file.task_ids@[i])@ == id
}

/// The last of the files that is for .NET and defines the task.
pub open spec fn is_last_definer(files: Seq<InheritedTaskFile>, i: int, id: Seq<char>) -> bool {
    &&& 0 <= i < files.len()
    &&& is_for_dotnet(files[i])
    &&& defines(files[i], id)
    &&& forall|j: int|
        i < j < files.len() ==> !(is_for_dotnet(#[trigger] files[j]) && defines(files[j], id))
}

proof fn lemma_list_member(list: Seq<String>, wanted: Seq<char>)
    ensures
        text::views(list).contains(wanted) <==> exists|i: int|
            0 <= i < list.len() && (#[trigger] list[i])@ == wanted,
{
    let all = text::views(list);
    if all.contains(wanted) {
        let i = choose|i: int| 0 <= i < all.len() && all[i] == wanted;
        assert(list[i]@ == wanted);
    }
    if exists|i: int| 0 <= i < list.len() && (#[trigger] list[i])@ == wanted {
        let i = choose|i: int| 0 <= i < list.len() && (#[trigger] list[i])@ == wanted;
        assert(all[i] == wanted);
    }
}

proof fn lemma_for_dotnet(file: InheritedTaskFile)
    ensures
        file.can_apply() <==> is_for_dotnet(file),
{
    if file.toolchains is Some {
        lemma_list_member(file.toolchains->Some_0@, "dotnet"@);
    }
    if file.languages is Some {
        let list = file.languages->Some_0@;
        lemma_list_member(list, "csharp"@);
        lemma_list_member(list, "fsharp"@);
        lemma_list_member(list, "vb"@);
    }
}

/// A task is reserved exactly where a file that is for .NET defines it, and then by the
/// last such file.
pub proof fn law_inherited_tasks_are_reserved(files: Seq<InheritedTaskFile>, id: Seq<char>)
    ensures
        reserved_tasks(files).contains_key(id) <==> exists|i: int|
            0 <= i < files.len() && is_for_dotnet(#[trigger] files[i]) && defines(files[i], id),
        forall|i: int| #[trigger]
            is_last_definer(files, i, id) ==> reserved_tasks(files)[id] == files[i].path@,
    decreases files.len(),
{
    if files.len() > 0 {
        let fewer = files.drop_last();
        let last = files.len() - 1;
        law_inherited_tasks_are_reserved(fewer, id);
        lemma_for_dotnet(files[last]);
        lemma_list_member(files[last].task_ids@, id);
        assert forall|i: int| 0 <= i < fewer.len() implies #[trigger] fewer[i] == files[i] by {}
        if reserved_tasks(fewer).contains_key(id) {
            let i = choose|i: int|
                0 <= i < fewer.len() && is_for_dotnet(#[trigger] fewer[i]) && defines(fewer[i], id);
            assert(is_for_dotnet(files[i]));
        }
        if exists|i: int|
            0 <= i < files.len() && is_for_dotnet(#[trigger] files[i]) && defines(files[i], id) {
            let i = choose|i: int|
                0 <= i < files.len() && is_for_dotnet(#[trigger] files[i]) && defines(files[i], id);
            if i < last {
                assert(is_for_dotnet(fewer[i]));
            }
        }
        assert forall|i: int| #[trigger] is_last_definer(files, i, id) implies reserved_tasks(
            files,
        )[id] == files[i].path@ by {
            if i < last {
                assert(!(is_for_dotnet(files[last]) && defines(files[last], id)));
                assert forall|j: int| i < j < fewer.len() implies !(is_for_dotnet(
                    #[trigger] fewer[j],
                ) && defines(fewer[j], id)) by {
                    assert(fewer[j] == files[j]);
                }
                assert(is_last_definer(fewer, i, id));
                assert(reserved_tasks(fewer).contains_key(id));
            }
        }
    }
}

/// Reported are the tasks that could be inferred, that the setting selects and that are
/// reserved, each with the file that reserves it, and each once.
pub proof fn law_conflicts_are_the_selected_reserved_tasks(
    reserved: Map<Seq<char>, Seq<char>>,
    setting: InferTasksSetting,
    id: Seq<char>,
    file: Seq<char>,
)
    ensures
        conflicts(reserved, setting).contains((id, file)) <==> {
            &&& id == "build"@ || id == "test"@ || id == "run"@ || id == "publish"@
            &&& setting.selects(id)
            &&& reserved.contains_key(id)
            &&& reserved[id] == file
        },
        conflicts(reserved, setting).len() <= 4,
{
    let all = crate::config::inferable_tasks();
    let chosen = |task: Seq<char>| setting.selects(task) && reserved.contains_key(task);
    let kept = all.filter(chosen);
    let shown = conflicts(reserved, setting);
    text::lemma_filter_members(all, chosen, id);
    all.lemma_filter_len(chosen);
    assert(all[0] == "build"@ && all[1] == "test"@ && all[2] == "run"@ && all[3] == "publish"@);
    assert(all.contains(id) <==> (id == "build"@ || id == "test"@ || id == "run"@ || id
        == "publish"@));
    if shown.contains((id, file)) {
        let i = choose|i: int| 0 <= i < shown.len() && shown[i] == (id, file);
        assert(kept[i] == id);
        assert(kept.contains(id));
    }
    if kept.contains(id) && reserved[id] == file {
        let i = choose|i: int| 0 <= i < kept.len() && kept[i] == id;
        assert(shown[i] == (id, file));
    }
}

/// What inference is given, and what it gives, says what it holds.
pub proof fn law_inputs_and_tasks_say_what_they_hold(
    inputs: InferInputs,
    task: InferredTask,
    error: TaskError,
)
    ensures
        inputs@.evaluation == inputs.evaluation@,
        inputs@.file is Some <==> inputs.explicit_project_file is Some,
        inputs@.file is Some ==> inputs@.file->Some_0 == inputs.explicit_project_file->Some_0@,
        inputs@.project_dir == inputs.project_dir@,
        inputs@.workspace_dir == inputs.workspace_dir@,
        inputs@.test_platform_runner == inputs.test_platform_runner,
        task@.command == text::views(task.command@),
        task@.description == task.description@,
        task@.options == task.options,
        task@.deps is Some <==> task.deps is Some,
        task@.deps is Some ==> task@.deps->Some_0 == task.deps->Some_0@,
        task@.inputs is Some <==> task.inputs is Some,
        task@.inputs is Some ==> task@.inputs->Some_0 == task.inputs->Some_0@,
        task@.outputs is Some <==> task.outputs is Some,
        task@.outputs is Some ==> task@.outputs->Some_0 == task.outputs->Some_0@,
        task.deep_view() == task@,
        error is Input <==> error.fault() is Input,
        error is Output <==> error.fault() is Output,
        error is Target <==> error.fault() is Target,
{
}

/// Every inferred task says what it does and that it was inferred.
pub proof fn law_tasks_describe_themselves(
    setting: InferTasksSetting,
    reserved_ids: Seq<Seq<char>>,
    project: InferView,
    id: Seq<char>,
)
    requires
        inferred_tasks(setting, reserved_ids, project) is Ok,
        inferred_tasks(setting, reserved_ids, project)->Ok_0.contains_key(id),
    ensures
        inferred_tasks(setting, reserved_ids, project)->Ok_0[id].description == (if id
            == "build"@ {
            "Builds the project. Upstream projects build through moon task deps. (inferred)"@
        } else if id == "test"@ {
            "Runs tests against the built assemblies. (inferred)"@
        } else if id == "run"@ {
            "Runs the application locally. (inferred)"@
        } else {
            "Publishes the built application. (inferred)"@
        }),
{
    lemma_ids_differ();
}

} // verus!
