use dotnet_toolchain::config::InferTasksSetting;
use dotnet_toolchain::infer_tasks::{
    infer_tasks, reportable_conflicts, reserved_task_ids, resolve_output_path,
    stable_input_patterns, strip_prefix_ci, InferInputs, InferredTask, InheritedTaskFile,
    TaskDependency, TaskError, TaskOptions,
};
use dotnet_toolchain::msbuild::{EvalItem, MsbuildEvaluation};
use dotnet_toolchain::str_map::StrMap;
use moon_config::{Input, Output};
use moon_target::Target;

fn evaluation(properties: &[(&str, &str)]) -> MsbuildEvaluation {
    let mut evaluation = MsbuildEvaluation::default();

    for (name, value) in properties {
        evaluation
            .properties
            .insert(name.to_string(), value.to_string());
    }

    evaluation
}

fn item(metadata: &[(&str, &str)]) -> EvalItem {
    let mut map = StrMap::new();

    for (name, value) in metadata {
        map.insert(name.to_string(), value.to_string());
    }

    EvalItem { metadata: map }
}

fn infer(
    evaluation: &MsbuildEvaluation,
    setting: &InferTasksSetting,
    reserved: &[&str],
) -> StrMap<InferredTask> {
    let reserved = reserved.iter().map(|id| id.to_string()).collect::<Vec<_>>();

    infer_tasks(
        setting,
        &reserved,
        &InferInputs {
            evaluation,
            explicit_project_file: None,
            project_dir: "C:\\work\\repo\\app",
            workspace_dir: "C:\\work\\repo",
            test_platform_runner: false,
        },
    )
    .unwrap()
}

fn test_project_evaluation() -> MsbuildEvaluation {
    let mut eval = evaluation(&[("OutputType", "Exe"), ("TargetFramework", "net10.0")]);
    eval.items.insert(
        "PackageReference".into(),
        vec![item(&[("Identity", "Microsoft.NET.Test.Sdk")])],
    );
    eval
}

fn task<'a>(tasks: &'a StrMap<InferredTask>, id: &str) -> &'a InferredTask {
    tasks.get(id).unwrap()
}

fn command_line(task: &InferredTask) -> String {
    task.command.join(" ")
}

#[test]
fn classlib_gets_build_only() {
    let eval = evaluation(&[
        ("OutputType", "Library"),
        ("BaseOutputPath", "bin\\"),
        ("BaseIntermediateOutputPath", "obj\\"),
    ]);
    let tasks = infer(&eval, &InferTasksSetting::default(), &[]);

    assert_eq!(tasks.keys(), vec!["build"]);

    let build = task(&tasks, "build");
    assert_eq!(
        command_line(build),
        "dotnet build --no-restore --no-dependencies"
    );
    assert_eq!(
        build.outputs.as_ref().unwrap(),
        &vec![Output::parse("bin").unwrap()]
    );
    assert!(build.options.is_none(), "outputs known => cache untouched");
    assert!(build.deps.is_some());
    // Inputs exclude the evaluated output/intermediate dirs so hashes
    // stabilize (obj is mutated by every build).
    assert_eq!(
        build.inputs.as_ref().unwrap(),
        &vec![
            Input::parse("**/*").unwrap(),
            Input::parse("!bin/**").unwrap(),
            Input::parse("!obj/**").unwrap(),
        ]
    );
}

#[test]
fn exe_gets_build_run_publish() {
    let eval = evaluation(&[
        ("OutputType", "Exe"),
        ("BaseOutputPath", "bin\\"),
        ("TargetFramework", "net8.0"),
        ("PublishDir", "bin\\Debug\\net8.0\\publish\\"),
    ]);
    let tasks = infer(&eval, &InferTasksSetting::default(), &[]);

    assert_eq!(tasks.keys(), vec!["build", "publish", "run"]);

    let run = task(&tasks, "run");
    assert_eq!(command_line(run), "dotnet run");
    let run_options = run.options.as_ref().unwrap();
    assert_eq!(run_options.cache, Some(false));
    assert_eq!(run_options.run_in_ci, Some(false));

    let publish = task(&tasks, "publish");
    assert_eq!(
        command_line(publish),
        "dotnet publish --no-build --no-restore"
    );
    assert_eq!(
        publish.outputs.as_ref().unwrap(),
        &vec![Output::parse("bin/Debug/net8.0/publish").unwrap()]
    );
}

#[test]
fn test_project_gets_build_test_never_run() {
    // Modern test SDKs can flip OutputType to Exe: test wins over run.
    let mut eval = evaluation(&[("OutputType", "Exe"), ("TargetFramework", "net8.0")]);
    eval.items.insert(
        "PackageReference".into(),
        vec![item(&[
            ("Identity", "Microsoft.NET.Test.Sdk"),
            ("Version", "17.10.0"),
        ])],
    );

    let tasks = infer(&eval, &InferTasksSetting::default(), &[]);

    assert!(tasks.contains_key("build"));
    assert!(tasks.contains_key("test"));
    assert!(!tasks.contains_key("run"));
    assert!(!tasks.contains_key("publish"));

    let test = task(&tasks, "test");
    assert_eq!(command_line(test), "dotnet test --no-build --no-restore");
}

#[test]
fn pins_evaluated_configuration_on_cacheable_commands() {
    // `dotnet publish` defaults to Release (.NET 8+) while `dotnet build`
    // defaults to Debug: the explicit `-c` keeps `--no-build` coherent.
    let mut eval = evaluation(&[
        ("OutputType", "Exe"),
        ("TargetFramework", "net8.0"),
        ("Configuration", "Debug"),
        ("PublishDir", "bin\\Debug\\net8.0\\publish\\"),
    ]);
    eval.items.insert(
        "PackageReference".into(),
        vec![item(&[("Identity", "Microsoft.NET.Test.Sdk")])],
    );

    let tasks = infer(&eval, &InferTasksSetting::default(), &[]);

    assert_eq!(
        command_line(task(&tasks, "build")),
        "dotnet build --no-restore --no-dependencies -c Debug"
    );
    assert_eq!(
        command_line(task(&tasks, "test")),
        "dotnet test --no-build --no-restore -c Debug"
    );
}

#[test]
fn multi_tfm_exe_skips_publish() {
    let eval = evaluation(&[("OutputType", "Exe"), ("TargetFrameworks", "net8.0;net9.0")]);
    let tasks = infer(&eval, &InferTasksSetting::default(), &[]);

    assert!(tasks.contains_key("run"));
    assert!(!tasks.contains_key("publish"));
}

#[test]
fn unknown_outputs_disable_caching_instead_of_guessing() {
    // BaseOutputPath redirected outside the workspace entirely.
    let eval = evaluation(&[
        ("OutputType", "Library"),
        ("BaseOutputPath", "D:\\global-outputs\\app\\"),
    ]);
    let tasks = infer(&eval, &InferTasksSetting::default(), &[]);

    let build = task(&tasks, "build");
    assert!(build.outputs.is_none());
    assert_eq!(build.options.as_ref().unwrap().cache, Some(false));
}

#[test]
fn granular_selection_and_reserved_ids_are_respected() {
    let eval = evaluation(&[
        ("OutputType", "Exe"),
        ("BaseOutputPath", "bin\\"),
        ("TargetFramework", "net8.0"),
        ("PublishDir", "bin\\Debug\\net8.0\\publish\\"),
    ]);

    let only = InferTasksSetting::Only(vec!["run".into(), "publish".into()]);
    let tasks = infer(&eval, &only, &[]);
    assert_eq!(tasks.keys(), vec!["publish", "run"], "granular selection");

    let tasks = infer(&eval, &InferTasksSetting::default(), &["run", "build"]);
    assert_eq!(
        tasks.keys(),
        vec!["publish"],
        "reserved (inherited) ids skipped"
    );

    let tasks = infer(&eval, &InferTasksSetting::Enabled(false), &[]);
    assert!(tasks.is_empty());
}

#[test]
fn the_self_build_dep_is_optional() {
    // moon defaults `~:` deps to mandatory, so selecting only `test` or
    // only `publish` (no `build` task to depend on) would fail
    // project-graph construction with `UnknownDepTarget` if these were
    // plain targets.
    // A project is either a test project or an executable (`is_exe`
    // excludes `is_test`), so each dep needs its own evaluation.
    let cases = [
        ("test", evaluation(&[("IsTestProject", "true")])),
        (
            "publish",
            evaluation(&[
                ("OutputType", "Exe"),
                ("TargetFramework", "net8.0"),
                ("PublishDir", "bin\\Debug\\net8.0\\publish\\"),
            ]),
        ),
    ];

    for (id, eval) in cases {
        let tasks = infer(&eval, &InferTasksSetting::Only(vec![id.into()]), &[]);

        assert_eq!(
            task(&tasks, id).deps.as_deref(),
            Some(&[TaskDependency::Optional(Target::parse("~:build").unwrap())][..]),
            "`{id}` must depend on an optional `~:build`"
        );
    }
}

#[test]
fn multiple_project_files_get_explicit_targets() {
    let eval = evaluation(&[
        ("OutputType", "Exe"),
        ("BaseOutputPath", "bin\\"),
        ("TargetFramework", "net8.0"),
    ]);

    let tasks = infer_tasks(
        &InferTasksSetting::default(),
        &[],
        &InferInputs {
            evaluation: &eval,
            explicit_project_file: Some("App.csproj"),
            project_dir: "/repo/app",
            workspace_dir: "/repo",
            test_platform_runner: false,
        },
    )
    .unwrap();

    assert_eq!(
        command_line(task(&tasks, "build")),
        "dotnet build App.csproj --no-restore --no-dependencies"
    );
    assert_eq!(
        command_line(task(&tasks, "run")),
        "dotnet run --project App.csproj"
    );
}

#[test]
fn test_platform_takes_the_project_through_a_flag() {
    let eval = test_project_evaluation();

    let infer_with = |runner: bool, file: Option<&str>| {
        let tasks = infer_tasks(
            &InferTasksSetting::default(),
            &[],
            &InferInputs {
                evaluation: &eval,
                explicit_project_file: file,
                project_dir: "/repo/app-tests",
                workspace_dir: "/repo",
                test_platform_runner: runner,
            },
        )
        .unwrap();

        command_line(task(&tasks, "test"))
    };

    // MTP rejects a positional project path...
    assert_eq!(
        infer_with(true, Some("App.Tests.csproj")),
        "dotnet test --project App.Tests.csproj --no-build --no-restore"
    );
    // ...while classic VSTest mode rejects `--project`.
    assert_eq!(
        infer_with(false, Some("App.Tests.csproj")),
        "dotnet test App.Tests.csproj --no-build --no-restore"
    );
    // With one project file in the directory neither flavour applies:
    // the command runs in the project directory with no path at all.
    assert_eq!(
        infer_with(true, None),
        "dotnet test --no-build --no-restore"
    );
    assert_eq!(
        infer_with(false, None),
        "dotnet test --no-build --no-restore"
    );
}

#[test]
fn project_level_test_platform_opt_in_is_honored() {
    // A project can select MTP on its own, without a global.json.
    let mut eval = test_project_evaluation();
    eval.properties
        .insert("TestingPlatformDotnetTestSupport".into(), "true".into());

    let tasks = infer_tasks(
        &InferTasksSetting::default(),
        &[],
        &InferInputs {
            evaluation: &eval,
            explicit_project_file: Some("App.Tests.csproj"),
            project_dir: "/repo/app-tests",
            workspace_dir: "/repo",
            test_platform_runner: false,
        },
    )
    .unwrap();

    assert_eq!(
        command_line(task(&tasks, "test")),
        "dotnet test --project App.Tests.csproj --no-build --no-restore"
    );
}

#[test]
fn reports_only_conflicts_that_actually_suppress_inference() {
    let mut reserved = StrMap::new();
    for (id, file) in [
        ("build", "/workspace/.moon/tasks/dotnet.yml"),
        ("publish", "/workspace/.moon/tasks.yml"),
        // Not inferable, so its presence is unremarkable.
        ("lint", "/workspace/.moon/tasks/all.yml"),
    ] {
        reserved.insert(id.to_string(), file.to_string());
    }

    assert_eq!(
        reportable_conflicts(&reserved, &InferTasksSetting::default()),
        vec![
            ("build", "/workspace/.moon/tasks/dotnet.yml"),
            ("publish", "/workspace/.moon/tasks.yml"),
        ]
    );

    // A task the user did not ask us to infer is not a conflict.
    assert_eq!(
        reportable_conflicts(&reserved, &InferTasksSetting::Only(vec!["publish".into()])),
        vec![("publish", "/workspace/.moon/tasks.yml")]
    );

    assert!(reportable_conflicts(&reserved, &InferTasksSetting::Enabled(false)).is_empty());
    assert!(reportable_conflicts(&StrMap::new(), &InferTasksSetting::default()).is_empty());
}

#[test]
fn resolves_output_paths_in_every_form() {
    // Relative stays relative.
    assert_eq!(
        resolve_output_path("bin\\", "C:\\repo\\app", "C:\\repo"),
        Some("bin".into())
    );
    // Absolute under the project dir, case-insensitive.
    assert_eq!(
        resolve_output_path("C:\\Repo\\App\\bin\\Debug\\", "c:\\repo\\app", "c:\\repo"),
        Some("bin/Debug".into())
    );
    // Absolute under the workspace (artifacts layout) => workspace-relative.
    assert_eq!(
        resolve_output_path(
            "C:\\repo\\artifacts\\bin\\app\\",
            "C:\\repo\\app",
            "C:\\repo"
        ),
        Some("/artifacts/bin/app".into())
    );
    // Unix forms.
    assert_eq!(
        resolve_output_path("/repo/app/bin", "/repo/app", "/repo"),
        Some("bin".into())
    );
    // Outside the workspace => not resolvable.
    assert_eq!(
        resolve_output_path("D:\\elsewhere\\bin", "C:\\repo\\app", "C:\\repo"),
        None
    );
    // Empty => not resolvable.
    assert_eq!(resolve_output_path("", "C:\\repo\\app", "C:\\repo"), None);
    // Prefix must respect component boundaries.
    assert_eq!(
        resolve_output_path("/repo/app-other/bin", "/repo/app", "/repo"),
        Some("/app-other/bin".into())
    );
}

#[test]
fn paths_that_lead_up_count_as_where_they_lead() {
    let resolve = |raw: &str| resolve_output_path(raw, "/repo/app", "/repo");

    // Out of the workspace, in every way to write it.
    assert_eq!(resolve("..\\..\\out\\"), None);
    assert_eq!(resolve("/repo/app/../../out"), None);
    assert_eq!(resolve("/repo/../out"), None);
    assert_eq!(resolve("./.././../out"), None);
    assert_eq!(resolve("bin//../../../out"), None);
    assert_eq!(resolve("../.."), None);
    // Out of the project, within the workspace.
    assert_eq!(resolve("..\\out\\"), Some("/out".into()));
    assert_eq!(resolve("/repo/app/../artifacts/bin"), Some("/artifacts/bin".into()));
    assert_eq!(resolve("../app-other/bin"), Some("/app-other/bin".into()));
    // Back into the project.
    assert_eq!(resolve("bin/../out/./x"), Some("out/x".into()));
    assert_eq!(resolve("../App/bin"), Some("bin".into()));
    // No way leads up from the root.
    assert_eq!(resolve("../../../repo/app/bin"), Some("bin".into()));
    // A drive stays.
    assert_eq!(
        resolve_output_path("..\\..\\..\\out", "C:\\repo\\app", "C:\\repo"),
        None
    );
    assert_eq!(
        resolve_output_path("..\\out", "C:\\repo\\app", "C:\\repo"),
        Some("/out".into())
    );
    // Names that merely begin with dots lead nowhere else.
    assert_eq!(resolve("..out/...\\"), Some("..out/...".into()));
}

#[test]
fn builds_into_a_place_outside_the_workspace_are_not_cached() {
    let evaluation = evaluation(&[("OutputType", "Library"), ("BaseOutputPath", "..\\..\\out\\")]);
    let tasks = infer_tasks(
        &InferTasksSetting::default(),
        &[],
        &InferInputs {
            evaluation: &evaluation,
            explicit_project_file: None,
            project_dir: "/repo/app",
            workspace_dir: "/repo",
            test_platform_runner: false,
        },
    )
    .unwrap();
    let build = tasks.get("build").unwrap();

    assert_eq!(build.outputs, None);
    assert_eq!(build.options.unwrap().cache, Some(false));
}

#[test]
fn the_root_alone_is_no_output() {
    assert_eq!(resolve_output_path("/", "/repo/app", "/repo"), None);
    assert_eq!(resolve_output_path("\\\\", "/repo/app", "/repo"), None);
    // The directory itself is not below itself.
    assert_eq!(resolve_output_path("/repo", "/repo/app", "/repo"), None);
}

#[test]
fn prefixes_match_in_any_letter_case() {
    let chars = |text: &str| text.chars().collect::<Vec<_>>();

    assert_eq!(
        strip_prefix_ci(&chars("/ÜBER/App/bin"), &chars("/über/app")),
        Some(chars("bin"))
    );
    assert_eq!(strip_prefix_ci(&chars("/a/b"), &chars("")), None);
    assert_eq!(strip_prefix_ci(&chars("/a"), &chars("/a")), None);
    assert_eq!(strip_prefix_ci(&chars("/ab"), &chars("/a")), None);
}

#[test]
fn input_patterns_leave_out_what_a_build_writes() {
    let eval = evaluation(&[
        ("BaseOutputPath", "/repo/artifacts/bin/app/"),
        ("BaseIntermediateOutputPath", "/elsewhere/obj/"),
    ]);

    assert_eq!(
        stable_input_patterns(&InferInputs {
            evaluation: &eval,
            explicit_project_file: None,
            project_dir: "/repo/app",
            workspace_dir: "/repo",
            test_platform_runner: false,
        }),
        vec!["**/*", "!/artifacts/bin/app/**"]
    );
}

#[test]
fn build_depends_on_upstream_builds() {
    let eval = evaluation(&[("OutputType", "Library")]);
    let tasks = infer(&eval, &InferTasksSetting::default(), &[]);
    let build = task(&tasks, "build");

    assert_eq!(
        build.deps,
        Some(vec![TaskDependency::Target(
            Target::parse("^:build").unwrap()
        )])
    );
    assert_eq!(
        build.options,
        Some(TaskOptions {
            cache: Some(false),
            run_in_ci: None
        })
    );
    assert_eq!(
        build.description,
        "Builds the project. Upstream projects build through moon task deps. (inferred)"
    );
}

#[test]
fn unreadable_directories_are_errors() {
    let attempt = |properties: &[(&str, &str)]| {
        infer_tasks(
            &InferTasksSetting::default(),
            &[],
            &InferInputs {
                evaluation: &evaluation(properties),
                explicit_project_file: None,
                project_dir: "/repo/app",
                workspace_dir: "/repo",
                test_platform_runner: false,
            },
        )
    };

    // Looks like an address with a scheme that no input has.
    assert!(Input::parse("!bad://x/**").is_err());
    assert!(matches!(
        attempt(&[("BaseOutputPath", "bad://x")]),
        Err(TaskError::Input(_))
    ));

    assert!(Output::parse("$VAR").is_err());
    assert!(Input::parse("!$VAR/**").is_ok());
    assert!(matches!(
        attempt(&[("BaseOutputPath", "$VAR")]),
        Err(TaskError::Output(_))
    ));
}

#[test]
fn task_files_scoped_elsewhere_suppress_nothing() {
    let file = |path: &str, toolchains: Option<&[&str]>, languages: Option<&[&str]>, id: &str| {
        let names = |list: &[&str]| list.iter().map(|name| name.to_string()).collect::<Vec<_>>();

        InheritedTaskFile {
            path: path.into(),
            toolchains: toolchains.map(names),
            languages: languages.map(names),
            task_ids: vec![id.into()],
        }
    };
    let reserved = reserved_task_ids(&[
        file("all.yml", None, None, "build"),
        file("node.yml", Some(&["node"]), None, "test"),
        file("dotnet.yml", Some(&["node", "dotnet"]), Some(&["csharp"]), "run"),
        file("rust.yml", None, Some(&["rust"]), "publish"),
        file("more.yml", None, None, "build"),
    ]);

    assert_eq!(reserved.keys(), vec!["build", "run"]);
    assert_eq!(reserved.get("build").unwrap(), "more.yml");
    assert_eq!(reserved.get("run").unwrap(), "dotnet.yml");
}
