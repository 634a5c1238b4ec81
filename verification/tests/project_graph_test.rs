use dotnet_toolchain::config::{DotnetToolchainConfig, InferTasksSetting};
use dotnet_toolchain::infer_tasks::TaskError;
use dotnet_toolchain::msbuild::{parse_batch_output, EvalItem, MsbuildEvaluation};
use dotnet_toolchain::project_graph::{
    batch_project_paths, common_source_prefix, extend_project_graph, index_projects,
    is_sdk_resolution_failure, missing_sdk_message, take_batched, DependencyScope, GraphProject, ProjectDependency,
    ProjectFile,
};
use dotnet_toolchain::str_map::StrMap;
use dotnet_toolchain::tier2::evaluated_packages;

fn item(metadata: &[(&str, &str)]) -> EvalItem {
    let mut map = StrMap::new();

    for (name, value) in metadata {
        map.insert(name.to_string(), value.to_string());
    }

    EvalItem { metadata: map }
}

fn evaluation(
    properties: &[(&str, &str)],
    references: &[&str],
    packages: &[(&str, &str)],
) -> MsbuildEvaluation {
    let mut evaluation = MsbuildEvaluation::default();

    for (name, value) in properties {
        evaluation
            .properties
            .insert(name.to_string(), value.to_string());
    }
    evaluation.items.insert(
        "ProjectReference".into(),
        references
            .iter()
            .map(|path| item(&[("FullPath", path)]))
            .collect(),
    );
    evaluation.items.insert(
        "PackageReference".into(),
        packages
            .iter()
            .map(|(name, version)| item(&[("Identity", name), ("Version", version)]))
            .collect(),
    );

    evaluation
}

fn project(id: &str, file: &str, evaluation: Option<MsbuildEvaluation>) -> GraphProject {
    GraphProject {
        id: id.into(),
        source: id.into(),
        files: vec![ProjectFile {
            name: file.into(),
            real_path: Some(format!("/repo/{id}/{file}")),
            project_dir: format!("/repo/{id}"),
            virtual_path: Some(format!("/workspace/{id}/{file}")),
            evaluation,
        }],
        has_lock_file: false,
        test_platform_runner: false,
    }
}

fn dependencies_only() -> DotnetToolchainConfig {
    DotnetToolchainConfig {
        infer_tasks: InferTasksSetting::Enabled(false),
        ..DotnetToolchainConfig::default()
    }
}

fn fixture() -> Vec<GraphProject> {
    vec![
        project(
            "app",
            "App.csproj",
            Some(evaluation(
                &[("OutputType", "Exe")],
                &["/repo/lib/Lib.csproj"],
                &[],
            )),
        ),
        project(
            "app-tests",
            "App.Tests.csproj",
            Some(evaluation(
                &[],
                &["/repo/app/App.csproj"],
                &[("Microsoft.NET.Test.Sdk", "17.10.0"), ("xunit", "2.8.0")],
            )),
        ),
        project("core", "Core.csproj", Some(evaluation(&[], &[], &[]))),
        project(
            "lib",
            "Lib.fsproj",
            Some(evaluation(&[], &["/repo/core/Core.csproj"], &[])),
        ),
    ]
}

#[test]
fn project_references_become_dependencies() {
    let mut projects = fixture();
    projects[3].files[0].name = "Lib.csproj".into();
    projects[3].files[0].real_path = Some("/repo/lib/Lib.csproj".into());
    let output = extend_project_graph(&dependencies_only(), &projects, &[], "/repo");

    let app = output.extended_projects.get("app").unwrap();
    assert_eq!(
        app.dependencies,
        vec![ProjectDependency {
            id: "lib".into(),
            scope: DependencyScope::Production,
            via: "project-reference Lib.csproj".into(),
        }]
    );
    assert!(app.tasks.is_empty());
    assert_eq!(
        output.extended_projects.get("lib").unwrap().dependencies[0].id,
        "core"
    );
    // No references at all, so nothing is contributed.
    assert!(!output.extended_projects.contains_key("core"));
    assert_eq!(
        output.extended_projects.get("app-tests").unwrap().dependencies[0].id,
        "app"
    );
    assert_eq!(
        output.input_files,
        vec![
            "/workspace/app/App.csproj",
            "/workspace/app-tests/App.Tests.csproj",
            "/workspace/core/Core.csproj",
            "/workspace/lib/Lib.fsproj",
        ]
    );
}

#[test]
fn nothing_is_contributed_when_switched_off() {
    let config = DotnetToolchainConfig {
        infer_dependencies: false,
        ..dependencies_only()
    };
    let output = extend_project_graph(&config, &fixture(), &[], "/repo");

    assert!(output.extended_projects.is_empty());
    assert!(output.input_files.is_empty());
    assert!(output.package_sets.is_empty());
}

#[test]
fn tasks_and_aliases_are_contributed() {
    let mut projects = fixture();
    projects[2].files[0]
        .evaluation
        .as_mut()
        .unwrap()
        .properties
        .insert("AssemblyName".into(), "My.Core".into());
    let output = extend_project_graph(
        &DotnetToolchainConfig::default(),
        &projects,
        &["build".to_string()],
        "/repo",
    );

    let app = output.extended_projects.get("app").unwrap();
    assert_eq!(app.tasks.keys(), vec!["publish", "run"]);
    assert_eq!(app.alias, None);
    let tests = output.extended_projects.get("app-tests").unwrap();
    assert_eq!(tests.tasks.keys(), vec!["test"]);
    let core = output.extended_projects.get("core").unwrap();
    assert_eq!(core.alias.as_deref(), Some("My.Core"));
    assert!(core.tasks.is_empty());
}

#[test]
fn a_broken_project_leaves_the_others_alone() {
    let whole = extend_project_graph(&dependencies_only(), &fixture(), &[], "/repo");
    let mut projects = fixture();
    projects[2].files[0].evaluation = None;
    let output = extend_project_graph(&dependencies_only(), &projects, &[], "/repo");

    for id in ["app", "app-tests", "lib"] {
        assert_eq!(
            output.extended_projects.get(id),
            whole.extended_projects.get(id)
        );
    }
    assert!(whole.package_sets.contains_key("core"));
    // A partial set is never cached.
    assert!(!output.package_sets.contains_key("core"));
}

#[test]
fn complete_package_sets_without_lock_files_are_cached() {
    let mut projects = fixture();
    projects[0].has_lock_file = true;
    projects[3].files[0].real_path = None;
    let output = extend_project_graph(&dependencies_only(), &projects, &[], "/repo");

    assert_eq!(output.package_sets.keys(), vec!["app-tests", "core"]);
    assert_eq!(
        output.package_sets.get("app-tests").unwrap().get("xunit").unwrap(),
        "2.8.0"
    );
}

#[test]
fn references_to_oneself_and_repeated_ones_count_once() {
    let mut projects = fixture();
    projects[0].files[0].evaluation = Some(evaluation(
        &[],
        &[
            "/repo/app/App.csproj",
            "/REPO/CORE/core.csproj",
            "/repo/core/Core.csproj",
            "/elsewhere/Other.csproj",
        ],
        &[],
    ));
    let output = extend_project_graph(&dependencies_only(), &projects, &[], "/repo");
    let app = output.extended_projects.get("app").unwrap();

    assert_eq!(app.dependencies.len(), 1);
    assert_eq!(app.dependencies[0].id, "core");
    assert_eq!(app.dependencies[0].via, "project-reference core.csproj");
}

#[test]
fn several_files_share_one_project() {
    let mut projects = vec![project(
        "app",
        "A.csproj",
        Some(evaluation(
            &[("AssemblyName", "First")],
            &[],
            &[("X", "1"), ("Y", "1")],
        )),
    )];
    projects[0].files.push(ProjectFile {
        name: "B.csproj".into(),
        real_path: Some("/repo/app/B.csproj".into()),
        project_dir: "/repo/app".into(),
        virtual_path: None,
        evaluation: Some(evaluation(
            &[("AssemblyName", "Second"), ("IsTestProject", "true")],
            &[],
            &[("Y", "2")],
        )),
    });
    let output = extend_project_graph(&DotnetToolchainConfig::default(), &projects, &[], "/repo");
    let app = output.extended_projects.get("app").unwrap();

    // The first alias and the first task of an id win; the file is named explicitly.
    assert_eq!(app.alias.as_deref(), Some("First"));
    assert_eq!(
        app.tasks.get("build").unwrap().command.join(" "),
        "dotnet build A.csproj --no-restore --no-dependencies"
    );
    assert_eq!(
        app.tasks.get("test").unwrap().command.join(" "),
        "dotnet test B.csproj --no-build --no-restore"
    );
    // Of two versions the later one counts.
    let packages = output.package_sets.get("app").unwrap();
    assert_eq!(packages.get("X").unwrap(), "1");
    assert_eq!(packages.get("Y").unwrap(), "2");
    assert_eq!(output.input_files, vec!["/workspace/app/A.csproj"]);
}

#[test]
fn failed_inference_is_reported_for_the_project() {
    let projects = vec![project(
        "app",
        "A.csproj",
        Some(evaluation(&[("BaseOutputPath", "bad://x")], &[], &[])),
    )];
    let output = extend_project_graph(&DotnetToolchainConfig::default(), &projects, &[], "/repo");

    assert_eq!(output.task_failures.len(), 1);
    assert_eq!(output.task_failures[0].id, "app");
    assert!(matches!(output.task_failures[0].error, TaskError::Input(_)));
    assert!(output.extended_projects.is_empty());
}

#[test]
fn references_resolve_by_path_then_by_unique_suffix() {
    let mut projects = fixture();
    // Two projects that share the suffix of a file at the workspace root.
    projects[0].source = ".".into();
    projects[2].source = "/".into();
    projects[2].files[0].name = "App.csproj".into();
    let index = index_projects(&projects);

    assert_eq!(index.resolve("/repo/app/App.csproj"), Some("app"));
    assert_eq!(index.resolve("\\REPO\\app\\app.csproj"), Some("app"));
    // A long form of a path that is known in its short form.
    assert_eq!(
        index.resolve("C:\\Long Name\\repo\\lib\\Lib.fsproj"),
        Some("lib")
    );
    // `/app.csproj` belongs to two projects, so it leads nowhere.
    assert_eq!(index.resolve("C:\\x\\App.csproj"), None);
    assert_eq!(index.resolve("/x/lib2/Lib.fsproj"), None);
}

#[test]
fn references_that_end_like_two_projects_lead_nowhere() {
    let mut projects = vec![
        project("a", "App.csproj", None),
        project("b", "App.csproj", None),
        project("c", "C.csproj", None),
    ];
    projects[0].source = "app".into();
    projects[0].files[0].real_path = Some("/repo/app/App.csproj".into());
    projects[1].source = "src/app".into();
    projects[1].files[0].real_path = Some("/repo/src/app/App.csproj".into());
    let index = index_projects(&projects);

    // By its real path either is found.
    assert_eq!(index.resolve("/repo/app/App.csproj"), Some("a"));
    assert_eq!(index.resolve("/repo/src/app/App.csproj"), Some("b"));
    // By its end this could be either of the two.
    assert_eq!(index.resolve("C:\\Long Name\\src\\app\\App.csproj"), None);
    // By its end this can only be the first.
    assert_eq!(index.resolve("C:\\Long Name\\app\\App.csproj"), Some("a"));
}

#[test]
fn batches_are_filled_and_used_up() {
    let mut projects = fixture();
    projects[1].files[0].real_path = None;

    assert_eq!(
        batch_project_paths(&projects),
        vec![
            "/repo/app/App.csproj",
            "/repo/core/Core.csproj",
            "/repo/lib/Lib.fsproj"
        ]
    );

    let mut batch = parse_batch_output(
        r#"{"Items": {"MoonEval": [{"Identity": "/repo/app/App.csproj", "OutputType": "Exe"}]}}"#,
    )
    .unwrap();
    assert_eq!(
        take_batched(&mut batch, "/Repo\\App/app.csproj")
            .unwrap()
            .property("OutputType"),
        "Exe"
    );
    assert!(take_batched(&mut batch, "/repo/app/App.csproj").is_none());
    assert!(batch.is_empty());
}

#[test]
fn evaluation_runs_in_the_deepest_common_directory() {
    let prefix = |sources: &[&str]| {
        common_source_prefix(&sources.iter().map(|source| source.to_string()).collect::<Vec<_>>())
    };

    assert_eq!(prefix(&["src/a", "src/b/c"]), "src");
    assert_eq!(prefix(&["src/a/x", "./src/a", "src//a/y"]), "src/a");
    assert_eq!(prefix(&["src/ab", "src/a"]), "src");
    assert_eq!(prefix(&["a", "b"]), "");
    assert_eq!(prefix(&["apps/web"]), "apps/web");
    assert_eq!(prefix(&[".", "a"]), "");
    assert_eq!(prefix(&[]), "");
}

#[test]
fn a_missing_sdk_is_reported_with_its_pin() {
    assert_eq!(
        missing_sdk_message(Some(("/workspace/global.json", "9.0.100")), "boom"),
        "The .NET SDK pinned by <path>/workspace/global.json</path> (<symbol>9.0.100</symbol>) is not available, so MSBuild evaluation cannot run.\n\nInstall that SDK, set <property>version</property> under <property>dotnet</property> in <file>.moon/toolchains.yml</file> to have moon install it, or point <property>dotnetRoot</property> at an SDK that satisfies the pin.\n\nboom"
    );
    assert!(missing_sdk_message(None, "x").starts_with("No usable .NET SDK was found, so"));
    assert!(is_sdk_resolution_failure(
        "A compatible .NET SDK was not found.\n\nRequested SDK version: 9.0.100"
    ));
    assert!(is_sdk_resolution_failure("No .NET SDKs were found."));
    assert!(!is_sdk_resolution_failure("error MSB4025: The project file could not be loaded."));
}

#[test]
fn cached_packages_are_those_that_hashing_would_evaluate() {
    let output = extend_project_graph(&dependencies_only(), &fixture(), &[], "/repo");

    for project in fixture() {
        let evaluations = project
            .files
            .into_iter()
            .map(|file| file.evaluation)
            .collect::<Vec<_>>();

        assert_eq!(
            output.package_sets.get(&project.id),
            Some(&evaluated_packages(true, &evaluations).packages)
        );
    }
}
