//! Locating the files this toolchain cares about, relative to a directory.
//!
//! The `find_*` functions select from the entries of one directory; `walk_up`
//! supplies the workspace-bounded upward traversal that they are usually driven by.

use crate::text;
use vstd::prelude::*;

verus! {

/// What kind of thing a directory entry is, as far as it could be told.
#[derive(Debug, PartialEq, Eq, Structural, Clone, Copy)]
pub enum EntryKind {
    File,
    Directory,
    Other,
}

/// One entry of a directory.
#[derive(Debug, PartialEq, Eq)]
pub struct DirEntry {
    pub name: String,
    pub kind: EntryKind,
}

/// The names of the entries that are plain files, in listing order.
pub open spec fn file_names(entries: Seq<DirEntry>) -> Seq<Seq<char>>
    decreases entries.len(),
{
    if entries.len() == 0 {
        Seq::empty()
    } else if entries.last().kind == EntryKind::File {
        file_names(entries.drop_last()).push(entries.last().name@)
    } else {
        file_names(entries.drop_last())
    }
}

/// The names of the entries that are no directories, in listing order. A link counts by
/// its name: what it leads to is not known.
pub open spec fn names_besides_dirs(entries: Seq<DirEntry>) -> Seq<Seq<char>>
    decreases entries.len(),
{
    if entries.len() == 0 {
        Seq::empty()
    } else if entries.last().kind != EntryKind::Directory {
        names_besides_dirs(entries.drop_last()).push(entries.last().name@)
    } else {
        names_besides_dirs(entries.drop_last())
    }
}

// ---------------------------------------------------------------------------
// File names
// ---------------------------------------------------------------------------

/// What follows the last dot of a name, if it has a dot.
pub open spec fn extension(name: Seq<char>) -> Option<Seq<char>> {
    match text::last_index(name, '.') {
        Some(i) => Some(name.skip(i + 1)),
        None => None,
    }
}

/// The name has the given extension, in any ASCII case.
pub open spec fn has_extension(name: Seq<char>, wanted: Seq<char>) -> bool {
    extension(name) is Some && text::same_ignoring_ascii_case(extension(name)->Some_0, wanted)
}

/// A project file of one of the languages this toolchain understands.
pub open spec fn is_project_name(name: Seq<char>) -> bool {
    ||| has_extension(name, "csproj"@)
    ||| has_extension(name, "fsproj"@)
    ||| has_extension(name, "vbproj"@)
}

/// A solution file.
pub open spec fn is_solution_name(name: Seq<char>) -> bool {
    has_extension(name, "sln"@) || has_extension(name, "slnx"@)
}

/// A NuGet lock file: the default `packages.lock.json`, or the
/// `packages.<project>.lock.json` that a renamed one is called, in any ASCII case.
pub open spec fn is_lock_name(name: Seq<char>) -> bool {
    let lower = text::ascii_lower(name);
    "packages."@.is_prefix_of(lower) && ".lock.json"@.is_suffix_of(lower)
}

/// A file that can change evaluation, restore or build behavior from any level
/// between a project directory and the workspace root, in any ASCII case.
pub open spec fn is_config_name(name: Seq<char>) -> bool {
    let lower = text::ascii_lower(name);
    ||| lower == "directory.build.props"@
    ||| lower == "directory.build.rsp"@
    ||| lower == "directory.build.targets"@
    ||| lower == "directory.packages.props"@
    ||| lower == "global.json"@
    ||| lower == "nuget.config"@
}

/// A directory never worth descending into: build output, or owned by another
/// tool.
pub open spec fn is_skipped_dir(name: Seq<char>) -> bool {
    ||| text::same_ignoring_ascii_case("bin"@, name)
    ||| text::same_ignoring_ascii_case("obj"@, name)
    ||| text::same_ignoring_ascii_case("node_modules"@, name)
    ||| text::same_ignoring_ascii_case(".git"@, name)
    ||| text::same_ignoring_ascii_case(".moon"@, name)
}

/// What follows the last dot of a name.
fn extension_of(name: &str) -> (r: Option<String>)
    ensures
        match r {
            Some(found) => extension(name@) == Some(found@),
            None => extension(name@) is None,
        },
{
    let chars = text::chars_of(name);
    let total: usize = chars.len();
    match text::rfind_char(&chars, '.') {
        Some(i) => {
            let tail = text::slice_of(&chars, i + 1, total);
            assert(tail@ =~= name@.skip(i + 1));
            Some(text::string_of(&tail))
        },
        None => None,
    }
}

/// Whether a name is that of an MSBuild project file.
pub fn is_project_file_name(name: &str) -> (r: bool)
    ensures
        r == is_project_name(name@),
{
    match extension_of(name) {
        Some(found) => {
            let ext = found.as_str();
            text::eq_ignore_ascii_case(ext, "csproj") || text::eq_ignore_ascii_case(ext, "fsproj")
                || text::eq_ignore_ascii_case(ext, "vbproj")
        },
        None => false,
    }
}

/// Whether a name is that of a solution file.
pub fn is_solution_file_name(name: &str) -> (r: bool)
    ensures
        r == is_solution_name(name@),
{
    match extension_of(name) {
        Some(found) => {
            let ext = found.as_str();
            text::eq_ignore_ascii_case(ext, "sln") || text::eq_ignore_ascii_case(ext, "slnx")
        },
        None => false,
    }
}

/// NuGet lock file names: the default `packages.lock.json`, plus the
/// `packages.<project>.lock.json` convention used when `NuGetLockFilePath`
/// renames it (case-insensitive, NuGet accepts any casing).
pub fn is_lock_file_name(name: &str) -> (r: bool)
    ensures
        r == is_lock_name(name@),
{
    let lower = text::to_ascii_lower(name);
    let prefix = text::chars_of("packages.");
    let suffix = text::chars_of(".lock.json");
    text::starts_with(&lower, &prefix) && text::ends_with(&lower, &suffix)
}

/// Whether a name is that of a hash-relevant config file.
pub fn is_config_file_name(name: &str) -> (r: bool)
    ensures
        r == is_config_name(name@),
{
    let chars = text::to_ascii_lower(name);
    let lower = text::string_of(&chars);
    let known = lower.as_str();
    text::same_text(known, "directory.build.props") || text::same_text(known, "directory.build.rsp")
        || text::same_text(known, "directory.build.targets") || text::same_text(
        known,
        "directory.packages.props",
    ) || text::same_text(known, "global.json") || text::same_text(known, "nuget.config")
}

/// Whether a directory of that name is left out of recursive searches.
pub fn is_skipped_dir_name(name: &str) -> (r: bool)
    ensures
        r == is_skipped_dir(name@),
{
    text::eq_ignore_ascii_case("bin", name) || text::eq_ignore_ascii_case("obj", name)
        || text::eq_ignore_ascii_case("node_modules", name) || text::eq_ignore_ascii_case(
        ".git",
        name,
    ) || text::eq_ignore_ascii_case(".moon", name)
}

// ---------------------------------------------------------------------------
// One directory
// ---------------------------------------------------------------------------

/// The names of the project files among the entries, sorted.
pub open spec fn project_files_in(entries: Seq<DirEntry>) -> Seq<Seq<char>> {
    text::sorted(names_besides_dirs(entries).filter(|name: Seq<char>| is_project_name(name)))
}

/// The names of the lock files among the entries, sorted.
pub open spec fn lock_files_in(entries: Seq<DirEntry>) -> Seq<Seq<char>> {
    text::sorted(file_names(entries).filter(|name: Seq<char>| is_lock_name(name)))
}

/// The names of the hash-relevant config files among the entries, sorted.
pub open spec fn config_files_in(entries: Seq<DirEntry>) -> Seq<Seq<char>> {
    text::sorted(file_names(entries).filter(|name: Seq<char>| is_config_name(name)))
}

/// The MSBuild project files (*.csproj etc.) directly inside a directory, by
/// name, sorted.
pub fn find_project_files(entries: &[DirEntry]) -> (r: Vec<String>)
    ensures
        text::sorted_choice(
            text::views(r@),
            names_besides_dirs(entries@),
            |name: Seq<char>| is_project_name(name),
        ),
        text::views(r@) == project_files_in(entries@),
{
    let ghost chosen = |name: Seq<char>| is_project_name(name);
    let mut r: Vec<String> = Vec::new();
    proof {
        reveal(Seq::filter);
        assert(entries@.take(0) =~= Seq::empty());
        assert(names_besides_dirs(entries@.take(0)).filter(chosen) =~= text::views(r@));
    }
    for i in 0..entries.len()
        invariant
            chosen == (|name: Seq<char>| is_project_name(name)),
            text::sorted_choice(text::views(r@), names_besides_dirs(entries@.take(i as int)), chosen),
    {
        proof {
            lemma_entry_step(entries@, i as int, chosen);
        }
        let name = entries[i].name.as_str();
        if entries[i].kind != EntryKind::Directory && is_project_file_name(name) {
            text::insert_sorted(&mut r, text::owned(name));
        }
    }
    assert(entries@.take(entries@.len() as int) =~= entries@);
    proof {
        text::lemma_sorted_choice(text::views(r@), names_besides_dirs(entries@), chosen);
    }
    r
}

/// The NuGet lock files directly inside a directory, by name, sorted.
pub fn find_lock_files(entries: &[DirEntry]) -> (r: Vec<String>)
    ensures
        text::sorted_choice(
            text::views(r@),
            file_names(entries@),
            |name: Seq<char>| is_lock_name(name),
        ),
        text::views(r@) == lock_files_in(entries@),
{
    let ghost chosen = |name: Seq<char>| is_lock_name(name);
    let mut r: Vec<String> = Vec::new();
    proof {
        reveal(Seq::filter);
        assert(entries@.take(0) =~= Seq::empty());
        assert(file_names(entries@.take(0)).filter(chosen) =~= text::views(r@));
    }
    for i in 0..entries.len()
        invariant
            chosen == (|name: Seq<char>| is_lock_name(name)),
            text::sorted_choice(text::views(r@), file_names(entries@.take(i as int)), chosen),
    {
        proof {
            lemma_file_step(entries@, i as int, chosen);
        }
        let name = entries[i].name.as_str();
        if entries[i].kind == EntryKind::File && is_lock_file_name(name) {
            text::insert_sorted(&mut r, text::owned(name));
        }
    }
    assert(entries@.take(entries@.len() as int) =~= entries@);
    proof {
        text::lemma_sorted_choice(text::views(r@), file_names(entries@), chosen);
    }
    r
}

/// The hash-relevant config files directly inside a directory, by actual file
/// name, sorted.
pub fn find_config_files(entries: &[DirEntry]) -> (r: Vec<String>)
    ensures
        text::sorted_choice(
            text::views(r@),
            file_names(entries@),
            |name: Seq<char>| is_config_name(name),
        ),
        text::views(r@) == config_files_in(entries@),
{
    let ghost chosen = |name: Seq<char>| is_config_name(name);
    let mut r: Vec<String> = Vec::new();
    proof {
        reveal(Seq::filter);
        assert(entries@.take(0) =~= Seq::empty());
        assert(file_names(entries@.take(0)).filter(chosen) =~= text::views(r@));
    }
    for i in 0..entries.len()
        invariant
            chosen == (|name: Seq<char>| is_config_name(name)),
            text::sorted_choice(text::views(r@), file_names(entries@.take(i as int)), chosen),
    {
        proof {
            lemma_file_step(entries@, i as int, chosen);
        }
        let name = entries[i].name.as_str();
        if entries[i].kind == EntryKind::File && is_config_file_name(name) {
            text::insert_sorted(&mut r, text::owned(name));
        }
    }
    assert(entries@.take(entries@.len() as int) =~= entries@);
    proof {
        text::lemma_sorted_choice(text::views(r@), file_names(entries@), chosen);
    }
    r
}

/// Filtering the files of one entry more.
proof fn lemma_file_step(entries: Seq<DirEntry>, i: int, chosen: spec_fn(Seq<char>) -> bool)
    requires
        0 <= i < entries.len(),
    ensures
        file_names(entries.take(i + 1)).filter(chosen).to_multiset() == (if entries[i].kind
            == EntryKind::File && chosen(entries[i].name@) {
            file_names(entries.take(i)).filter(chosen).to_multiset().insert(entries[i].name@)
        } else {
            file_names(entries.take(i)).filter(chosen).to_multiset()
        }),
{
    reveal(Seq::filter);
    broadcast use vstd::seq_lib::group_to_multiset_ensures;

    assert(entries.take(i + 1).drop_last() =~= entries.take(i));
    let fewer = file_names(entries.take(i));
    assert(fewer.push(entries[i].name@).drop_last() =~= fewer);
}

/// Filtering the names of one entry more.
proof fn lemma_entry_step(entries: Seq<DirEntry>, i: int, chosen: spec_fn(Seq<char>) -> bool)
    requires
        0 <= i < entries.len(),
    ensures
        names_besides_dirs(entries.take(i + 1)).filter(chosen).to_multiset() == (if entries[i].kind
            != EntryKind::Directory && chosen(entries[i].name@) {
            names_besides_dirs(entries.take(i)).filter(chosen).to_multiset().insert(
                entries[i].name@,
            )
        } else {
            names_besides_dirs(entries.take(i)).filter(chosen).to_multiset()
        }),
{
    reveal(Seq::filter);
    broadcast use vstd::seq_lib::group_to_multiset_ensures;

    assert(entries.take(i + 1).drop_last() =~= entries.take(i));
    let fewer = names_besides_dirs(entries.take(i));
    assert(fewer.push(entries[i].name@).drop_last() =~= fewer);
}

/// Some entry that is no directory is a solution file.
pub open spec fn holds_solution(entries: Seq<DirEntry>) -> bool {
    exists|i: int|
        0 <= i < entries.len() && (#[trigger] entries[i]).kind != EntryKind::Directory
            && is_solution_name(entries[i].name@)
}

/// Does a directory directly contain a solution file (*.sln / *.slnx)?
pub fn has_solution_file(entries: &[DirEntry]) -> (r: bool)
    ensures
        r == holds_solution(entries@),
{
    for i in 0..entries.len()
        invariant
            forall|j: int|
                0 <= j < i ==> !((#[trigger] entries@[j]).kind != EntryKind::Directory
                    && is_solution_name(entries@[j].name@)),
    {
        if entries[i].kind != EntryKind::Directory && is_solution_file_name(entries[i].name.as_str()) {
            assert(is_solution_name(entries@[i as int].name@));
            return true;
        }
    }
    false
}

// ---------------------------------------------------------------------------
// A tree of directories
// ---------------------------------------------------------------------------

/// A directory with everything below it.
#[derive(Debug, PartialEq, Eq)]
pub struct DirTree {
    /// The names of the entries that are no directories.
    pub files: Vec<String>,
    pub dirs: Vec<SubDir>,
}

/// A directory inside another.
#[derive(Debug, PartialEq, Eq)]
pub struct SubDir {
    pub name: String,
    pub tree: DirTree,
}

/// A lock file lies in the directory, or at most `depth` directories below it
/// without passing through a skipped one.
pub open spec fn holds_lock_within(tree: DirTree, depth: nat) -> bool
    decreases depth,
{
    ||| exists|i: int| 0 <= i < tree.files@.len() && is_lock_name((#[trigger] tree.files@[i])@)
    ||| depth > 0 && exists|i: int|
        0 <= i < tree.dirs@.len() && !is_skipped_dir((#[trigger] tree.dirs@[i]).name@)
            && holds_lock_within(tree.dirs@[i].tree, (depth - 1) as nat)
}

/// Depth-limited search for any NuGet lock file under a directory.
/// Lock files live next to each project file, not at the dependencies root,
/// so a root-only check would miss them.
pub fn contains_lockfile(tree: &DirTree, depth: u8) -> (r: bool)
    ensures
        r == holds_lock_within(*tree, depth as nat),
    decreases depth,
{
    for i in 0..tree.files.len()
        invariant
            forall|j: int| 0 <= j < i ==> !is_lock_name((#[trigger] tree.files@[j])@),
    {
        if is_lock_file_name(tree.files[i].as_str()) {
            assert(is_lock_name(tree.files@[i as int]@));
            return true;
        }
    }
    if depth == 0 {
        return false;
    }
    for i in 0..tree.dirs.len()
        invariant
            depth > 0,
            forall|j: int|
                0 <= j < i ==> is_skipped_dir((#[trigger] tree.dirs@[j]).name@)
                    || !holds_lock_within(tree.dirs@[j].tree, (depth - 1) as nat),
    {
        if !is_skipped_dir_name(tree.dirs[i].name.as_str()) && contains_lockfile(
            &tree.dirs[i].tree,
            depth - 1,
        ) {
            assert(!is_skipped_dir(tree.dirs@[i as int].name@));
            return true;
        }
    }
    false
}

/// Searching deeper never loses a lock file that was already found.
pub proof fn law_deeper_search_finds_no_less(tree: DirTree, depth: nat, deeper: nat)
    requires
        depth <= deeper,
        holds_lock_within(tree, depth),
    ensures
        holds_lock_within(tree, deeper),
    decreases depth,
{
    if !(exists|i: int|
        0 <= i < tree.files@.len() && is_lock_name((#[trigger] tree.files@[i])@)) {
        let i = choose|i: int|
            0 <= i < tree.dirs@.len() && !is_skipped_dir((#[trigger] tree.dirs@[i]).name@)
                && holds_lock_within(tree.dirs@[i].tree, (depth - 1) as nat);
        law_deeper_search_finds_no_less(
            tree.dirs@[i].tree,
            (depth - 1) as nat,
            (deeper - 1) as nat,
        );
    }
}

// ---------------------------------------------------------------------------
// Paths
// ---------------------------------------------------------------------------

/// A path by its components: the root it hangs from, if it is absolute, and the
/// names from there on.
#[derive(Debug, PartialEq, Eq)]
pub struct DirPath {
    pub absolute: bool,
    pub parts: Vec<String>,
}

/// What a [`DirPath`] says.
pub struct PathView {
    pub absolute: bool,
    pub parts: Seq<Seq<char>>,
}

impl View for DirPath {
    type V = PathView;

    open spec fn view(&self) -> PathView {
        PathView { absolute: self.absolute, parts: text::views(self.parts@) }
    }
}

impl DeepView for DirPath {
    type V = PathView;

    open spec fn deep_view(&self) -> PathView {
        self.view()
    }
}

impl PathView {
    /// The directory that holds this one. The root of the file system is not
    /// handed out, nor is the empty path.
    pub open spec fn parent(self) -> Option<PathView> {
        if self.parts.len() >= 2 {
            Some(PathView { absolute: self.absolute, parts: self.parts.drop_last() })
        } else {
            None
        }
    }

    /// The entry of that name inside this directory.
    pub open spec fn join(self, name: Seq<char>) -> PathView {
        PathView { absolute: self.absolute, parts: self.parts.push(name) }
    }

    /// This path is `dir` or lies below it.
    pub open spec fn is_within(self, dir: PathView) -> bool {
        self.absolute == dir.absolute && dir.parts.is_prefix_of(self.parts)
    }
}

/// The directories from `start` up to and including `root`, nearest first;
/// all the way up where `root` is not among them.
pub open spec fn ancestry(start: PathView, root: PathView) -> Seq<PathView>
    decreases start.parts.len(),
{
    if start == root || start.parent() is None {
        seq![start]
    } else {
        seq![start] + ancestry(start.parent()->Some_0, root)
    }
}

impl DirPath {
    /// A copy of the path.
    pub fn copied(&self) -> (r: DirPath)
        ensures
            r@ == self@,
    {
        DirPath { absolute: self.absolute, parts: text::copied(&self.parts) }
    }

    /// Whether two paths have the same components.
    pub fn same_as(&self, other: &DirPath) -> (r: bool)
        ensures
            r == (self@ == other@),
    {
        let same = same_lists(&self.parts, &other.parts);
        self.absolute == other.absolute && same
    }

    /// The directory that holds this one.
    pub fn parent(&self) -> (r: Option<DirPath>)
        ensures
            match r {
                Some(dir) => self@.parent() == Some(dir@),
                None => self@.parent() is None,
            },
    {
        if self.parts.len() < 2 {
            return None;
        }
        let mut parts = text::copied(&self.parts);
        assert(parts@.len() == text::views(parts@).len());
        let _ = parts.pop();
        assert(text::views(parts@) =~= text::views(self.parts@).drop_last());
        Some(DirPath { absolute: self.absolute, parts })
    }

    /// The entry of that name inside this directory.
    pub fn join(&self, name: &str) -> (r: DirPath)
        ensures
            r@ == self@.join(name@),
    {
        let mut parts = text::copied(&self.parts);
        let owned = text::owned(name);
        proof {
            text::lemma_views_push(parts@, owned);
        }
        parts.push(owned);
        DirPath { absolute: self.absolute, parts }
    }
}

/// Whether two lists hold the same texts in the same order.
fn same_lists(a: &[String], b: &[String]) -> (r: bool)
    ensures
        r == (text::views(a@) == text::views(b@)),
{
    if a.len() != b.len() {
        assert(text::views(a@).len() != text::views(b@).len());
        return false;
    }
    for i in 0..a.len()
        invariant
            a@.len() == b@.len(),
            forall|j: int| 0 <= j < i ==> (#[trigger] a@[j])@ == b@[j]@,
    {
        if !text::same_text(a[i].as_str(), b[i].as_str()) {
            assert(text::views(a@)[i as int] != text::views(b@)[i as int]);
            return false;
        }
    }
    assert(text::views(a@) =~= text::views(b@));
    true
}

/// The views of a list of paths.
pub open spec fn path_views(paths: Seq<DirPath>) -> Seq<PathView> {
    paths.map_values(|path: DirPath| path@)
}

/// Directories from `start` up to and including `workspace_root`.
///
/// Every upward search is bounded by the workspace root, so that `global.json` or
/// lock file discovery cannot escape into a parent repository and pick up a file
/// that governs nothing here. Stops early if `start` is not under
/// `workspace_root`, once there is no parent left.
pub fn walk_up(start: &DirPath, workspace_root: &DirPath) -> (r: Vec<DirPath>)
    ensures
        path_views(r@) == ancestry(start@, workspace_root@),
{
    let mut r: Vec<DirPath> = Vec::new();
    let mut dir = start.copied();
    let ghost all = ancestry(start@, workspace_root@);
    assert(path_views(r@) + ancestry(dir@, workspace_root@) =~= all);
    loop
        invariant_except_break
            path_views(r@) + ancestry(dir@, workspace_root@) == all,
        invariant
            all == ancestry(start@, workspace_root@),
        ensures
            path_views(r@) == all,
        decreases dir@.parts.len(),
    {
        let ghost before = path_views(r@);
        let ghost here = dir@;
        let last = dir.same_as(workspace_root);
        let up = dir.parent();
        r.push(dir);
        assert(path_views(r@) =~= before.push(here));
        if last {
            assert(path_views(r@) =~= all);
            break;
        }
        match up {
            Some(next) => {
                dir = next;
                assert(path_views(r@) + ancestry(dir@, workspace_root@) =~= all);
            },
            None => {
                assert(path_views(r@) =~= all);
                break;
            },
        }
    }
    r
}

/// An upward search from inside the workspace never leaves it, and it ends at
/// the workspace root.
pub proof fn law_walk_up_is_bounded(start: PathView, root: PathView)
    requires
        start.is_within(root),
        root.parts.len() >= 1,
    ensures
        ancestry(start, root).len() == start.parts.len() - root.parts.len() + 1,
        ancestry(start, root).last() == root,
        forall|i: int|
            0 <= i < ancestry(start, root).len() ==> (#[trigger] ancestry(start, root)[i]).is_within(
                root,
            ) && ancestry(start, root)[i] == (PathView {
                absolute: start.absolute,
                parts: start.parts.take(start.parts.len() - i),
            }),
    decreases start.parts.len(),
{
    let all = ancestry(start, root);
    if start.parts.len() == root.parts.len() {
        assert(start.parts =~= root.parts);
        assert(start.parts.take(start.parts.len() as int) =~= start.parts);
    } else {
        let up = start.parent()->Some_0;
        assert(up.parts.take(root.parts.len() as int) =~= root.parts);
        law_walk_up_is_bounded(up, root);
        let rest = ancestry(up, root);
        assert(all == seq![start] + rest);
        assert forall|i: int| 0 <= i < all.len() implies (#[trigger] all[i]).is_within(root)
            && all[i] == (PathView {
            absolute: start.absolute,
            parts: start.parts.take(start.parts.len() - i),
        }) by {
            if i == 0 {
                assert(start.parts.take(start.parts.len() as int) =~= start.parts);
            } else {
                assert(all[i] == rest[i - 1]);
                assert(up.parts.take(up.parts.len() - (i - 1)) =~= start.parts.take(
                    start.parts.len() - i,
                ));
            }
        }
        assert(all.last() == rest.last());
    }
}

/// One directory with its path and its entries.
#[derive(Debug, PartialEq, Eq)]
pub struct DirListing {
    pub path: DirPath,
    pub entries: Vec<DirEntry>,
}

// ---------------------------------------------------------------------------
// What is found
// ---------------------------------------------------------------------------

/// Some entry that is a plain file has that name.
pub open spec fn is_file_of(entries: Seq<DirEntry>, name: Seq<char>) -> bool {
    exists|i: int|
        0 <= i < entries.len() && (#[trigger] entries[i]).name@ == name && entries[i].kind
            == EntryKind::File
}

/// Some entry that is no directory has that name.
pub open spec fn is_entry_of(entries: Seq<DirEntry>, name: Seq<char>) -> bool {
    exists|i: int|
        0 <= i < entries.len() && (#[trigger] entries[i]).name@ == name && entries[i].kind
            != EntryKind::Directory
}

proof fn lemma_file_names(entries: Seq<DirEntry>, name: Seq<char>)
    ensures
        file_names(entries).contains(name) <==> is_file_of(entries, name),
    decreases entries.len(),
{
    let all = file_names(entries);
    if entries.len() > 0 {
        let fewer = entries.drop_last();
        let last = entries.last();
        let some = file_names(fewer);
        lemma_file_names(fewer, name);
        if is_file_of(fewer, name) {
            let i = choose|i: int|
                0 <= i < fewer.len() && (#[trigger] fewer[i]).name@ == name && fewer[i].kind
                    == EntryKind::File;
            assert(entries[i].name@ == name);
            let j = choose|j: int| 0 <= j < some.len() && some[j] == name;
            assert(all[j] == name);
        }
        if is_file_of(entries, name) {
            let i = choose|i: int|
                0 <= i < entries.len() && (#[trigger] entries[i]).name@ == name && entries[i].kind
                    == EntryKind::File;
            if i < fewer.len() {
                assert(fewer[i].name@ == name);
            } else {
                assert(all[some.len() as int] == name);
            }
        }
        if all.contains(name) {
            let j = choose|j: int| 0 <= j < all.len() && all[j] == name;
            if j < some.len() {
                assert(some[j] == name);
            } else {
                assert(entries[entries.len() - 1].name@ == name);
            }
        }
    }
}

proof fn lemma_names_besides_dirs(entries: Seq<DirEntry>, name: Seq<char>)
    ensures
        names_besides_dirs(entries).contains(name) <==> is_entry_of(entries, name),
    decreases entries.len(),
{
    let all = names_besides_dirs(entries);
    if entries.len() > 0 {
        let fewer = entries.drop_last();
        let some = names_besides_dirs(fewer);
        lemma_names_besides_dirs(fewer, name);
        if is_entry_of(fewer, name) {
            let i = choose|i: int|
                0 <= i < fewer.len() && (#[trigger] fewer[i]).name@ == name && fewer[i].kind
                    != EntryKind::Directory;
            assert(entries[i].name@ == name);
            let j = choose|j: int| 0 <= j < some.len() && some[j] == name;
            assert(all[j] == name);
        }
        if is_entry_of(entries, name) {
            let i = choose|i: int|
                0 <= i < entries.len() && (#[trigger] entries[i]).name@ == name && entries[i].kind
                    != EntryKind::Directory;
            if i < fewer.len() {
                assert(fewer[i].name@ == name);
            } else {
                assert(all[some.len() as int] == name);
            }
        }
        if all.contains(name) {
            let j = choose|j: int| 0 <= j < all.len() && all[j] == name;
            if j < some.len() {
                assert(some[j] == name);
            } else {
                assert(entries[entries.len() - 1].name@ == name);
            }
        }
    }
}

/// A name has an extension exactly where it ends with a dot and that extension.
proof fn lemma_extension(name: Seq<char>, wanted: Seq<char>)
    requires
        text::is_free_of(wanted, '.'),
        text::ascii_lower(wanted) == wanted,
    ensures
        has_extension(name, wanted) <==> (seq!['.'] + wanted).is_suffix_of(text::ascii_lower(name)),
{
    let lower = text::ascii_lower(name);
    let suffix = seq!['.'] + wanted;
    let at = name.len() - suffix.len();
    text::lemma_last_index(name, '.');
    if has_extension(name, wanted) {
        let i = text::last_index(name, '.')->Some_0;
        let ext = name.skip(i + 1);
        assert(text::ascii_lower(ext) == wanted);
        assert(text::ascii_lower(ext).len() == ext.len());
        assert(i == at);
        assert forall|k: int| 0 <= k < suffix.len() implies lower[at + k] == suffix[k] by {
            if k > 0 {
                assert(text::ascii_lower(ext)[k - 1] == wanted[k - 1]);
            }
        }
        assert(lower.subrange(at, lower.len() as int) =~= suffix);
    }
    if suffix.is_suffix_of(lower) {
        assert(lower.subrange(at, lower.len() as int) == suffix);
        assert forall|k: int| 0 <= k < suffix.len() implies lower[at + k] == suffix[k] by {
            assert(lower.subrange(at, lower.len() as int)[k] == suffix[k]);
        }
        assert(lower[at + 0] == suffix[0]);
        assert(name[at] == '.');
        assert forall|k: int| at < k < name.len() implies name[k] != '.' by {
            assert(lower[at + (k - at)] == suffix[k - at]);
            assert(suffix[k - at] == wanted[k - at - 1]);
        }
        let ext = name.skip(at + 1);
        assert(text::last_index(name, '.') == Some(at));
        assert forall|k: int| 0 <= k < wanted.len() implies text::ascii_lower(ext)[k] == wanted[k] by {
            assert(lower[at + (k + 1)] == suffix[k + 1]);
        }
        assert(text::ascii_lower(ext) =~= wanted);
    }
}

/// The project files of a directory are the entries that are no directories and whose
/// names end, in any ASCII case, with `.csproj`, `.fsproj` or `.vbproj`, and they ascend.
pub proof fn law_project_files_are_told_by_their_ends(entries: Seq<DirEntry>, name: Seq<char>)
    ensures
        project_files_in(entries).contains(name) <==> is_entry_of(entries, name) && ({
            let lower = text::ascii_lower(name);
            ||| ".csproj"@.is_suffix_of(lower)
            ||| ".fsproj"@.is_suffix_of(lower)
            ||| ".vbproj"@.is_suffix_of(lower)
        }),
        text::ascending(project_files_in(entries)),
{
    let chosen = |name: Seq<char>| is_project_name(name);
    let names = names_besides_dirs(entries);
    lemma_names_besides_dirs(entries, name);
    text::lemma_filter_members(names, chosen, name);
    text::law_sorting_keeps_the_texts(names.filter(chosen));
    reveal_strlit("csproj");
    reveal_strlit("fsproj");
    reveal_strlit("vbproj");
    reveal_strlit(".csproj");
    reveal_strlit(".fsproj");
    reveal_strlit(".vbproj");
    assert(text::ascii_lower("csproj"@) =~= "csproj"@);
    assert(text::ascii_lower("fsproj"@) =~= "fsproj"@);
    assert(text::ascii_lower("vbproj"@) =~= "vbproj"@);
    lemma_extension(name, "csproj"@);
    lemma_extension(name, "fsproj"@);
    lemma_extension(name, "vbproj"@);
    assert(seq!['.'] + "csproj"@ =~= ".csproj"@);
    assert(seq!['.'] + "fsproj"@ =~= ".fsproj"@);
    assert(seq!['.'] + "vbproj"@ =~= ".vbproj"@);
}

/// A directory holds a solution exactly where some entry that is no directory has a name
/// that ends, in any ASCII case, with `.sln` or `.slnx`.
pub proof fn law_solutions_are_told_by_their_ends(entries: Seq<DirEntry>)
    ensures
        holds_solution(entries) <==> exists|name: Seq<char>| #[trigger]
            is_entry_of(entries, name) && (".sln"@.is_suffix_of(text::ascii_lower(name))
                || ".slnx"@.is_suffix_of(text::ascii_lower(name))),
{
    reveal_strlit("sln");
    reveal_strlit("slnx");
    reveal_strlit(".sln");
    reveal_strlit(".slnx");
    assert(text::ascii_lower("sln"@) =~= "sln"@);
    assert(text::ascii_lower("slnx"@) =~= "slnx"@);
    assert(seq!['.'] + "sln"@ =~= ".sln"@);
    assert(seq!['.'] + "slnx"@ =~= ".slnx"@);
    assert forall|name: Seq<char>| is_solution_name(name) <==> (".sln"@.is_suffix_of(
        #[trigger] text::ascii_lower(name),
    ) || ".slnx"@.is_suffix_of(text::ascii_lower(name))) by {
        lemma_extension(name, "sln"@);
        lemma_extension(name, "slnx"@);
    }
    if holds_solution(entries) {
        let i = choose|i: int|
            0 <= i < entries.len() && (#[trigger] entries[i]).kind != EntryKind::Directory
                && is_solution_name(entries[i].name@);
        assert(is_entry_of(entries, entries[i].name@));
        assert(is_solution_name(entries[i].name@) <==> (".sln"@.is_suffix_of(
            text::ascii_lower(entries[i].name@),
        ) || ".slnx"@.is_suffix_of(text::ascii_lower(entries[i].name@))));
    }
    if exists|name: Seq<char>| #[trigger]
        is_entry_of(entries, name) && (".sln"@.is_suffix_of(text::ascii_lower(name))
            || ".slnx"@.is_suffix_of(text::ascii_lower(name))) {
        let name = choose|name: Seq<char>| #[trigger]
            is_entry_of(entries, name) && (".sln"@.is_suffix_of(text::ascii_lower(name))
                || ".slnx"@.is_suffix_of(text::ascii_lower(name)));
        let i = choose|i: int|
            0 <= i < entries.len() && (#[trigger] entries[i]).name@ == name && entries[i].kind
                != EntryKind::Directory;
        assert(is_solution_name(entries[i].name@));
    }
}

/// A name is that of a lock file: `packages.lock.json`, or the same with more between
/// `packages.` and `.lock.json`, in any ASCII case.
pub open spec fn is_called_a_lock(name: Seq<char>) -> bool {
    ||| text::same_ignoring_ascii_case(name, "packages.lock.json"@)
    ||| exists|project: Seq<char>|
        text::same_ignoring_ascii_case(
            name,
            #[trigger] ("packages."@ + project + ".lock.json"@),
        )
}

proof fn lemma_lock_name(name: Seq<char>)
    ensures
        is_lock_name(name) <==> is_called_a_lock(name),
{
    let lower = text::ascii_lower(name);
    reveal_strlit("packages.");
    reveal_strlit(".lock.json");
    reveal_strlit("packages.lock.json");
    let front = "packages."@;
    let back = ".lock.json"@;
    let short = "packages.lock.json"@;
    assert(text::ascii_lower(short) =~= short);
    assert(text::ascii_lower(front) =~= front);
    assert(text::ascii_lower(back) =~= back);
    if is_lock_name(name) {
        assert(lower.subrange(0, front.len() as int) == front);
        assert(lower.subrange(lower.len() - back.len(), lower.len() as int) == back);
        assert forall|k: int| 0 <= k < 9 implies lower[k] == front[k] by {
            assert(lower.subrange(0, front.len() as int)[k] == front[k]);
        }
        let at = lower.len() - 10;
        assert forall|k: int| 0 <= k < 10 implies lower[at + k] == back[k] by {
            assert(lower.subrange(at, lower.len() as int)[k] == back[k]);
        }
        if lower.len() < 19 {
            // The two ends share at most the dot between them.
            assert(lower[at + 0] == back[0]);
            assert(lower[at] == front[at]);
            assert(at == 8);
            assert forall|k: int| 0 <= k < 18 implies lower[k] == short[k] by {
                if k >= 9 {
                    assert(lower[at + (k - 8)] == back[k - 8]);
                }
            }
            assert(lower =~= short);
        } else {
            let project = lower.subrange(9, at);
            let whole = front + project + back;
            assert(lower =~= whole);
            assert(text::ascii_lower(lower) =~= lower) by {
                assert forall|k: int| 0 <= k < lower.len() implies text::ascii_lower(lower)[k]
                    == lower[k] by {}
            }
            assert(text::same_ignoring_ascii_case(name, whole));
        }
    }
    if is_called_a_lock(name) {
        if text::same_ignoring_ascii_case(name, short) {
            assert(lower == short);
            assert(lower.subrange(0, 9) =~= front);
            assert(lower.subrange(8, 18) =~= back);
        } else {
            let project = choose|project: Seq<char>|
                text::same_ignoring_ascii_case(name, #[trigger] (front + project + back));
            let whole = front + project + back;
            assert(lower == text::ascii_lower(whole));
            assert(lower.subrange(0, 9) =~= front) by {
                assert forall|k: int| 0 <= k < 9 implies lower[k] == front[k] by {
                    assert(text::ascii_lower(front)[k] == front[k]);
                }
            }
            let at = lower.len() - 10;
            assert(lower.subrange(at, lower.len() as int) =~= back) by {
                assert forall|k: int| 0 <= k < 10 implies lower[at + k] == back[k] by {
                    assert(whole[at + k] == back[k]);
                    assert(text::ascii_lower(back)[k] == back[k]);
                }
            }
        }
    }
}

/// The lock files of a directory are its plain files that are called like one, and they
/// ascend.
pub proof fn law_lock_files_are_told_by_their_names(entries: Seq<DirEntry>, name: Seq<char>)
    ensures
        lock_files_in(entries).contains(name) <==> is_file_of(entries, name) && is_called_a_lock(
            name,
        ),
        text::ascending(lock_files_in(entries)),
{
    let chosen = |name: Seq<char>| is_lock_name(name);
    let names = file_names(entries);
    lemma_file_names(entries, name);
    text::lemma_filter_members(names, chosen, name);
    text::law_sorting_keeps_the_texts(names.filter(chosen));
    lemma_lock_name(name);
}

/// The config files of a directory are its plain files of one of six names, in any ASCII
/// case, and they ascend.
pub proof fn law_config_files_have_six_names(entries: Seq<DirEntry>, name: Seq<char>)
    ensures
        config_files_in(entries).contains(name) <==> is_file_of(entries, name) && {
            ||| text::same_ignoring_ascii_case(name, "Directory.Build.props"@)
            ||| text::same_ignoring_ascii_case(name, "Directory.Build.rsp"@)
            ||| text::same_ignoring_ascii_case(name, "Directory.Build.targets"@)
            ||| text::same_ignoring_ascii_case(name, "Directory.Packages.props"@)
            ||| text::same_ignoring_ascii_case(name, "global.json"@)
            ||| text::same_ignoring_ascii_case(name, "nuget.config"@)
        },
        text::ascending(config_files_in(entries)),
{
    let chosen = |name: Seq<char>| is_config_name(name);
    let names = file_names(entries);
    lemma_file_names(entries, name);
    text::lemma_filter_members(names, chosen, name);
    text::law_sorting_keeps_the_texts(names.filter(chosen));
    reveal_strlit("Directory.Build.props");
    reveal_strlit("Directory.Build.rsp");
    reveal_strlit("Directory.Build.targets");
    reveal_strlit("Directory.Packages.props");
    reveal_strlit("global.json");
    reveal_strlit("nuget.config");
    reveal_strlit("directory.build.props");
    reveal_strlit("directory.build.rsp");
    reveal_strlit("directory.build.targets");
    reveal_strlit("directory.packages.props");
    assert(text::ascii_lower("Directory.Build.props"@) =~= "directory.build.props"@);
    assert(text::ascii_lower("Directory.Build.rsp"@) =~= "directory.build.rsp"@);
    assert(text::ascii_lower("Directory.Build.targets"@) =~= "directory.build.targets"@);
    assert(text::ascii_lower("Directory.Packages.props"@) =~= "directory.packages.props"@);
    assert(text::ascii_lower("global.json"@) =~= "global.json"@);
    assert(text::ascii_lower("nuget.config"@) =~= "nuget.config"@);
}

/// A directory that belongs to a build or to another tool.
pub open spec fn belongs_to_a_tool(name: Seq<char>) -> bool {
    ||| text::same_ignoring_ascii_case(name, "bin"@)
    ||| text::same_ignoring_ascii_case(name, "obj"@)
    ||| text::same_ignoring_ascii_case(name, "node_modules"@)
    ||| text::same_ignoring_ascii_case(name, ".git"@)
    ||| text::same_ignoring_ascii_case(name, ".moon"@)
}

/// The directories on the way down lead from one tree to another.
pub open spec fn leads_to(from: DirTree, way: Seq<int>, to: DirTree) -> bool
    decreases way.len(),
{
    if way.len() == 0 {
        from == to
    } else {
        0 <= way[0] < from.dirs@.len() && !belongs_to_a_tool(from.dirs@[way[0]].name@) && leads_to(
            from.dirs@[way[0]].tree,
            way.drop_first(),
            to,
        )
    }
}

/// A tree with a lock file right in it.
pub open spec fn has_lock(tree: DirTree) -> bool {
    exists|i: int| 0 <= i < tree.files@.len() && is_called_a_lock((#[trigger] tree.files@[i])@)
}

/// A search finds a lock file exactly where a way down of at most so many directories,
/// none of which belongs to a build or another tool, leads to a directory with one.
pub proof fn law_search_follows_every_way(tree: DirTree, depth: nat)
    ensures
        holds_lock_within(tree, depth) <==> exists|way: Seq<int>, to: DirTree|
            way.len() <= depth && #[trigger] leads_to(tree, way, to) && has_lock(to),
    decreases depth,
{
    assert forall|name: Seq<char>| #[trigger] is_lock_name(name) <==> is_called_a_lock(name) by {
        lemma_lock_name(name);
    }
    let none = Seq::<int>::empty();
    if exists|i: int| 0 <= i < tree.files@.len() && is_lock_name((#[trigger] tree.files@[i])@) {
        let i = choose|i: int| 0 <= i < tree.files@.len() && is_lock_name(
            (#[trigger] tree.files@[i])@,
        );
        assert(is_called_a_lock(tree.files@[i]@));
        assert(leads_to(tree, none, tree) && has_lock(tree));
    } else if holds_lock_within(tree, depth) {
        let i = choose|i: int|
            0 <= i < tree.dirs@.len() && !is_skipped_dir((#[trigger] tree.dirs@[i]).name@)
                && holds_lock_within(tree.dirs@[i].tree, (depth - 1) as nat);
        let below = tree.dirs@[i].tree;
        law_search_follows_every_way(below, (depth - 1) as nat);
        let (way, to) = choose|way: Seq<int>, to: DirTree|
            way.len() <= depth - 1 && #[trigger] leads_to(below, way, to) && has_lock(to);
        let longer = seq![i] + way;
        assert(longer.drop_first() =~= way);
        assert(leads_to(tree, longer, to));
    }
    if exists|way: Seq<int>, to: DirTree|
        way.len() <= depth && #[trigger] leads_to(tree, way, to) && has_lock(to) {
        let (way, to) = choose|way: Seq<int>, to: DirTree|
            way.len() <= depth && #[trigger] leads_to(tree, way, to) && has_lock(to);
        if way.len() == 0 {
            let i = choose|i: int| 0 <= i < to.files@.len() && is_called_a_lock(
                (#[trigger] to.files@[i])@,
            );
            assert(is_lock_name(tree.files@[i]@));
        } else {
            let below = tree.dirs@[way[0]].tree;
            law_search_follows_every_way(below, (depth - 1) as nat);
            assert(leads_to(below, way.drop_first(), to));
            assert(holds_lock_within(below, (depth - 1) as nat));
            assert(!is_skipped_dir(tree.dirs@[way[0]].name@));
        }
    }
}

/// An upward search goes from a directory to the one that holds it, one by one, begins
/// where it is told to, and ends at the root or where nothing holds the directory.
pub proof fn law_walk_up_takes_every_step(start: PathView, root: PathView)
    ensures
        ({
            let all = ancestry(start, root);
            &&& all.len() > 0
            &&& all[0] == start
            &&& forall|i: int|
                0 <= i < all.len() - 1 ==> (#[trigger] all[i]) != root && all[i].parts.len() >= 2
                    && all[i + 1].absolute == start.absolute && all[i + 1].parts
                    == all[i].parts.drop_last()
            &&& all.last() == root || all.last().parts.len() < 2
        }),
    decreases start.parts.len(),
{
    let all = ancestry(start, root);
    if !(start == root || start.parent() is None) {
        let up = start.parent()->Some_0;
        law_walk_up_takes_every_step(up, root);
        let rest = ancestry(up, root);
        assert forall|i: int| 0 <= i < all.len() - 1 implies (#[trigger] all[i]) != root
            && all[i].parts.len() >= 2 && all[i + 1].absolute == start.absolute && all[i + 1].parts
            == all[i].parts.drop_last() by {
            if i > 0 {
                assert(all[i] == rest[i - 1] && all[i + 1] == rest[i]);
            } else {
                assert(all[1] == rest[0]);
            }
        }
        assert(all.last() == rest.last());
    }
}

/// An entry lies in the directory that it was joined to.
pub proof fn law_joined_entries_lie_in_their_directory(dir: PathView, name: Seq<char>)
    ensures
        dir.join(name).parts == dir.parts.push(name),
        dir.join(name).absolute == dir.absolute,
        dir.parts.len() > 0 ==> dir.join(name).parent() == Some(dir),
{
    assert(dir.parts.push(name).drop_last() =~= dir.parts);
}

/// A path says what it holds, and so does a list of them.
pub proof fn law_paths_say_what_they_hold(path: DirPath, paths: Seq<DirPath>, i: int)
    requires
        0 <= i < paths.len(),
    ensures
        path@.absolute == path.absolute,
        path@.parts == text::views(path.parts@),
        path.deep_view() == path@,
        path_views(paths).len() == paths.len(),
        path_views(paths)[i] == paths[i]@,
{
}

} // verus!
