use dotnet_toolchain::discovery::{
    contains_lockfile, find_config_files, find_lock_files, find_project_files, has_solution_file,
    is_lock_file_name, walk_up, DirEntry, DirPath, DirTree, EntryKind, SubDir,
};

fn file(name: &str) -> DirEntry {
    DirEntry {
        name: name.into(),
        kind: EntryKind::File,
    }
}

fn link(name: &str) -> DirEntry {
    DirEntry {
        name: name.into(),
        kind: EntryKind::Other,
    }
}

fn directory(name: &str) -> DirEntry {
    DirEntry {
        name: name.into(),
        kind: EntryKind::Directory,
    }
}

fn path(text: &str) -> DirPath {
    DirPath {
        absolute: text.starts_with('/'),
        parts: text
            .split('/')
            .filter(|part| !part.is_empty())
            .map(String::from)
            .collect(),
    }
}

fn tree(files: &[&str], dirs: Vec<(&str, DirTree)>) -> DirTree {
    DirTree {
        files: files.iter().map(|name| name.to_string()).collect(),
        dirs: dirs
            .into_iter()
            .map(|(name, tree)| SubDir {
                name: name.into(),
                tree,
            })
            .collect(),
    }
}

#[test]
fn project_files_are_found_by_extension_and_sorted() {
    let entries = vec![
        file("b.FsProj"),
        file("readme.md"),
        file("csproj"),
        file("a.csproj.user"),
        file("B.csproj"),
        directory("odd.vbproj"),
        link("c.vbproj"),
        file("a.csproj"),
    ];

    // By code point, so capitals come first; a directory is no project file, a link may
    // lead to one.
    assert_eq!(
        find_project_files(&entries),
        vec!["B.csproj", "a.csproj", "b.FsProj", "c.vbproj"]
    );
    assert!(find_project_files(&[]).is_empty());
}

#[test]
fn lock_file_names_in_any_casing() {
    assert!(is_lock_file_name("packages.lock.json"));
    assert!(is_lock_file_name("Packages.App.Lock.JSON"));
    assert!(!is_lock_file_name("package.lock.json"));
    assert!(!is_lock_file_name("packages.lock.json.bak"));
    assert!(!is_lock_file_name("packages.json"));
    assert!(!is_lock_file_name("packageslock.json"));
}

#[test]
fn lock_and_config_files_are_plain_files() {
    let entries = vec![
        file("packages.b.lock.json"),
        directory("packages.dir.lock.json"),
        link("packages.link.lock.json"),
        file("packages.a.lock.json"),
        file("NuGet.Config"),
        file("Directory.Build.props"),
        directory("global.json"),
        file("other.config"),
    ];

    assert_eq!(
        find_lock_files(&entries),
        vec!["packages.a.lock.json", "packages.b.lock.json"]
    );
    assert_eq!(
        find_config_files(&entries),
        vec!["Directory.Build.props", "NuGet.Config"]
    );
}

#[test]
fn solution_files_of_both_kinds() {
    assert!(has_solution_file(&[file("x"), file("App.SLN")]));
    assert!(has_solution_file(&[file("App.slnx")]));
    assert!(!has_solution_file(&[file("sln"), file("App.slnf")]));
    assert!(!has_solution_file(&[directory("App.sln")]));
    assert!(has_solution_file(&[link("App.sln")]));
}

#[test]
fn lock_files_are_searched_to_a_depth_and_not_in_build_output() {
    let deep = tree(
        &[],
        vec![("a", tree(&[], vec![("b", tree(&["packages.lock.json"], vec![]))]))],
    );

    assert!(!contains_lockfile(&deep, 0));
    assert!(!contains_lockfile(&deep, 1));
    assert!(contains_lockfile(&deep, 2));
    assert!(contains_lockfile(&deep, 200));

    let hidden = tree(
        &["packages.config"],
        vec![
            ("Node_Modules", tree(&["packages.lock.json"], vec![])),
            ("bin", tree(&["packages.lock.json"], vec![])),
        ],
    );
    assert!(!contains_lockfile(&hidden, 5));
}

#[test]
fn walking_up_stops_at_the_workspace_root() {
    assert_eq!(
        walk_up(&path("/workspace/a/b"), &path("/workspace")),
        vec![path("/workspace/a/b"), path("/workspace/a"), path("/workspace")]
    );
    assert_eq!(
        walk_up(&path("/workspace"), &path("/workspace")),
        vec![path("/workspace")]
    );
    // Outside the workspace: up to where there is no parent.
    assert_eq!(
        walk_up(&path("/other/a"), &path("/workspace")),
        vec![path("/other/a"), path("/other")]
    );
    assert_eq!(
        walk_up(&path("a/b"), &path("/a")),
        vec![path("a/b"), path("a")]
    );
}
